use driving_sim::intersection::{enqueue, IntersectionController, Movement, Request};
use driving_sim::topology::{turns_conflict, TurnID};
use driving_sim::vehicle::CarID;

fn crossing() -> IntersectionController {
    // Turn 0 conflicts with 1 and with 2; 1 and 2 get along.
    IntersectionController::new(vec![(TurnID(0), TurnID(1)), (TurnID(2), TurnID(0))])
}

#[test]
fn conflicts_do_not_depend_on_the_order_of_naming() {
    let table = vec![(TurnID(0), TurnID(1)), (TurnID(2), TurnID(0))];
    assert!(turns_conflict(&table, TurnID(0), TurnID(1)));
    assert!(turns_conflict(&table, TurnID(1), TurnID(0)));
    assert!(turns_conflict(&table, TurnID(0), TurnID(2)));
    assert!(!turns_conflict(&table, TurnID(1), TurnID(2)));
    assert!(!turns_conflict(&table, TurnID(3), TurnID(0)));
}

#[test]
fn a_turn_never_conflicts_with_itself() {
    let table = vec![(TurnID(4), TurnID(4)), (TurnID(0), TurnID(1))];
    assert!(!turns_conflict(&table, TurnID(4), TurnID(4)));
    assert!(!turns_conflict(&table, TurnID(0), TurnID(0)));
}

#[test]
fn an_idle_intersection_grants_at_once() {
    let mut ctrl = crossing();
    assert_eq!(ctrl.num_active(), 0);
    assert!(ctrl.is_compatible(TurnID(0)));
    assert!(ctrl.request(TurnID(0), CarID(1), 10));
    assert!(ctrl.is_active(TurnID(0), CarID(1)));
    assert_eq!(ctrl.num_active(), 1);
    assert_eq!(ctrl.num_waiting(), 0);
}

#[test]
fn a_conflicting_request_waits_and_a_compatible_one_does_not() {
    let mut ctrl = crossing();
    assert!(ctrl.request(TurnID(1), CarID(1), 10));
    assert!(!ctrl.request(TurnID(0), CarID(2), 11));
    assert!(ctrl.is_waiting(TurnID(0), CarID(2)));
    assert!(!ctrl.is_active(TurnID(0), CarID(2)));
    // Turn 2 conflicts only with turn 0, which is not in use: the waiting
    // car holds nothing up.
    assert!(ctrl.request(TurnID(2), CarID(3), 12));
    // The same turn again: cars follow each other through it.
    assert!(ctrl.request(TurnID(1), CarID(4), 13));
    assert_eq!(ctrl.num_active(), 3);
    assert_eq!(ctrl.num_waiting(), 1);
}

#[test]
fn release_grants_what_has_become_compatible() {
    let mut ctrl = crossing();
    assert!(ctrl.request(TurnID(1), CarID(1), 10));
    assert!(ctrl.request(TurnID(2), CarID(2), 10));
    assert!(!ctrl.request(TurnID(0), CarID(3), 11));
    // Turn 0 is still blocked by turn 2.
    let begun = ctrl.release(TurnID(1), CarID(1));
    assert!(begun.is_empty());
    assert!(ctrl.is_waiting(TurnID(0), CarID(3)));
    let begun = ctrl.release(TurnID(2), CarID(2));
    assert_eq!(begun, vec![Movement { turn: TurnID(0), car: CarID(3) }]);
    assert!(ctrl.is_active(TurnID(0), CarID(3)));
    assert_eq!(ctrl.num_waiting(), 0);
    assert_eq!(ctrl.num_active(), 1);
}

#[test]
fn the_earliest_request_is_served_first() {
    let mut ctrl = crossing();
    assert!(ctrl.request(TurnID(0), CarID(1), 10));
    assert!(!ctrl.request(TurnID(1), CarID(9), 30));
    assert!(!ctrl.request(TurnID(2), CarID(8), 20));
    let begun = ctrl.release(TurnID(0), CarID(1));
    assert_eq!(
        begun,
        vec![Movement { turn: TurnID(2), car: CarID(8) }, Movement { turn: TurnID(1), car: CarID(9) }]
    );
}

#[test]
fn of_two_requests_of_one_instant_the_lower_identity_is_served_first() {
    // Turns 1 and 2 conflict with each other and with turn 0.
    let mut ctrl =
        IntersectionController::new(vec![(TurnID(0), TurnID(1)), (TurnID(0), TurnID(2)), (TurnID(1), TurnID(2))]);
    assert!(ctrl.request(TurnID(0), CarID(1), 10));
    assert!(!ctrl.request(TurnID(1), CarID(7), 20));
    assert!(!ctrl.request(TurnID(2), CarID(3), 20));
    let begun = ctrl.release(TurnID(0), CarID(1));
    assert_eq!(begun, vec![Movement { turn: TurnID(2), car: CarID(3) }]);
    assert!(ctrl.is_waiting(TurnID(1), CarID(7)));
    let begun = ctrl.release(TurnID(2), CarID(3));
    assert_eq!(begun, vec![Movement { turn: TurnID(1), car: CarID(7) }]);
}

#[test]
fn release_hands_over_as_many_movements_as_it_begins() {
    // Turn 0 conflicts with turns 1, 2 and 3, which get along.
    let mut ctrl =
        IntersectionController::new(vec![(TurnID(0), TurnID(1)), (TurnID(0), TurnID(2)), (TurnID(0), TurnID(3))]);
    assert!(ctrl.request(TurnID(0), CarID(1), 10));
    assert!(!ctrl.request(TurnID(1), CarID(2), 11));
    assert!(!ctrl.request(TurnID(2), CarID(3), 12));
    assert!(!ctrl.request(TurnID(3), CarID(4), 13));
    assert_eq!(ctrl.num_active(), 1);
    let begun = ctrl.release(TurnID(0), CarID(1));
    assert_eq!(begun.len(), 3);
    assert_eq!(ctrl.num_active(), 3);
    assert_eq!(ctrl.num_waiting(), 0);
}

#[test]
fn releasing_what_is_not_in_use_changes_nothing() {
    let mut ctrl = crossing();
    assert!(ctrl.request(TurnID(1), CarID(1), 10));
    assert!(!ctrl.request(TurnID(0), CarID(2), 11));
    let begun = ctrl.release(TurnID(1), CarID(5));
    assert!(begun.is_empty());
    assert_eq!(ctrl.num_active(), 1);
    assert_eq!(ctrl.num_waiting(), 1);
}

#[test]
fn release_frees_one_movement_at_a_time() {
    let mut ctrl = crossing();
    assert!(ctrl.request(TurnID(1), CarID(1), 10));
    assert!(ctrl.request(TurnID(1), CarID(1), 11));
    assert_eq!(ctrl.num_active(), 2);
    ctrl.release(TurnID(1), CarID(1));
    assert_eq!(ctrl.num_active(), 1);
    assert!(ctrl.is_active(TurnID(1), CarID(1)));
}

#[test]
fn requests_line_up_by_time_then_identity() {
    let mut waiting: Vec<Request> = Vec::new();
    enqueue(&mut waiting, Request { turn: TurnID(0), car: CarID(5), time: 20 });
    enqueue(&mut waiting, Request { turn: TurnID(1), car: CarID(2), time: 30 });
    enqueue(&mut waiting, Request { turn: TurnID(2), car: CarID(9), time: 10 });
    enqueue(&mut waiting, Request { turn: TurnID(3), car: CarID(1), time: 20 });
    enqueue(&mut waiting, Request { turn: TurnID(4), car: CarID(5), time: 20 });
    let order: Vec<(u64, usize, usize)> = waiting.iter().map(|r| (r.time, r.car.0, r.turn.0)).collect();
    assert_eq!(order, vec![(10, 9, 2), (20, 1, 3), (20, 5, 0), (20, 5, 4), (30, 2, 1)]);
    let first = Request { turn: TurnID(0), car: CarID(1), time: 5 };
    let second = Request { turn: TurnID(0), car: CarID(0), time: 6 };
    assert!(first.before(second));
    assert!(!second.before(first));
    assert!(!first.before(first));
}

#[test]
fn turns_in_use_never_conflict_whatever_is_asked() {
    let table = vec![(TurnID(0), TurnID(1)), (TurnID(1), TurnID(2)), (TurnID(2), TurnID(3)), (TurnID(3), TurnID(0))];
    let mut ctrl = IntersectionController::new(table.clone());
    let mut in_use: Vec<(usize, usize)> = Vec::new();
    let mut seed: usize = 12345;
    for step in 0..400usize {
        seed = seed.wrapping_mul(1103515245).wrapping_add(12345) % 2147483648;
        let turn = (seed / 7) % 4;
        if seed % 3 == 0 && !in_use.is_empty() {
            let (t, c) = in_use.remove((seed / 11) % in_use.len());
            for m in ctrl.release(TurnID(t), CarID(c)) {
                in_use.push((m.turn.0, m.car.0));
            }
        } else if ctrl.request(TurnID(turn), CarID(step), step as u64) {
            in_use.push((turn, step));
        }
        assert_eq!(ctrl.num_active(), in_use.len());
        for a in &in_use {
            assert!(ctrl.is_active(TurnID(a.0), CarID(a.1)));
            for b in &in_use {
                assert!(!turns_conflict(&table, TurnID(a.0), TurnID(b.0)));
            }
        }
    }
}
