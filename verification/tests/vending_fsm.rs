use vending_fsm::evaluator::{evaluate, make_change, run_actions, total_value};
use vending_fsm::{Fsm, VendingAction};

fn soda_catalog() -> Vec<(String, u32)> {
    vec![("soda".to_string(), 75)]
}

fn insert(d: u32) -> VendingAction {
    VendingAction::Insert(d)
}

fn vend(item: &str) -> VendingAction {
    VendingAction::Vend(item.to_string())
}

#[test]
fn empty_sequence_returns_start_balance() {
    let machine = Fsm::create(&soda_catalog());
    assert_eq!(evaluate(&machine, &[]), Some(0));
    assert!(machine.eval(&[]));
    assert_eq!(run_actions(&machine, 135, &[]), Some(135));
}

#[test]
fn exact_payment_round_trip() {
    let machine = Fsm::create(&soda_catalog());
    let actions = vec![insert(25), insert(25), insert(25), vend("soda")];
    assert_eq!(evaluate(&machine, &actions), Some(0));
    assert!(machine.eval(&actions));
}

#[test]
fn overpayment_leaves_the_difference() {
    let machine = Fsm::create(&soda_catalog());
    let actions = vec![insert(25), insert(25), insert(25), insert(10), vend("soda")];
    assert_eq!(evaluate(&machine, &actions), Some(10));
}

#[test]
fn insufficient_funds_fail() {
    let machine = Fsm::create(&soda_catalog());
    let actions = vec![insert(25), vend("soda")];
    assert_eq!(evaluate(&machine, &actions), None);
    assert!(!machine.eval(&actions));
}

#[test]
fn inserting_past_capacity_fails() {
    let machine = Fsm::create(&soda_catalog());
    assert_eq!(run_actions(&machine, 495, &[insert(10)]), None);
    assert_eq!(run_actions(&machine, 495, &[insert(5)]), Some(500));
}

#[test]
fn unknown_item_fails() {
    let machine = Fsm::create(&soda_catalog());
    let actions = vec![insert(25), insert(25), insert(25), vend("chips")];
    assert_eq!(evaluate(&machine, &actions), None);
}

#[test]
fn unaccepted_coin_fails() {
    let machine = Fsm::create(&soda_catalog());
    assert_eq!(evaluate(&machine, &[insert(3)]), None);
    assert_eq!(evaluate(&machine, &[insert(50)]), None);
}

#[test]
fn failure_short_circuits_whatever_follows() {
    let machine = Fsm::create(&soda_catalog());
    let bare = vec![vend("soda")];
    let extended = vec![vend("soda"), insert(25), insert(25), insert(25), vend("soda")];
    assert_eq!(evaluate(&machine, &bare), None);
    assert_eq!(evaluate(&machine, &extended), None);
}

#[test]
fn item_priced_above_capacity_is_never_vendable() {
    let catalog = vec![("gold".to_string(), 600), ("soda".to_string(), 75)];
    let machine = Fsm::create(&catalog);
    assert_eq!(run_actions(&machine, 500, &[vend("gold")]), None);
    assert_eq!(run_actions(&machine, 500, &[vend("soda")]), Some(425));
}

#[test]
fn several_items_vend_independently() {
    let catalog = vec![("soda".to_string(), 75), ("gum".to_string(), 35)];
    let machine = Fsm::create(&catalog);
    let actions = vec![
        insert(25),
        insert(10),
        vend("gum"),
        insert(25),
        insert(25),
        insert(25),
        vend("soda"),
    ];
    assert_eq!(evaluate(&machine, &actions), Some(0));
}

#[test]
fn is_valid_transition_matches_the_table() {
    let machine = Fsm::create(&soda_catalog());
    assert!(machine.is_valid_transition(0, &insert(25)));
    assert!(machine.is_valid_transition(75, &vend("soda")));
    assert!(!machine.is_valid_transition(74, &vend("soda")));
    assert!(!machine.is_valid_transition(496, &insert(5)));
    assert!(!machine.is_valid_transition(0, &insert(1)));
}

#[test]
fn evaluator_accepts_hand_built_machines() {
    let machine = Fsm { start: 501, transitions: Vec::new() };
    assert_eq!(evaluate(&machine, &[]), Some(501));
    // The boolean form re-checks that the final balance is within capacity.
    assert!(!machine.eval(&[]));
}

#[test]
fn change_for_forty_five_cents() {
    let change = make_change(45);
    assert_eq!(change, vec![25, 10, 10]);
    assert_eq!(total_value(&change), 45);
}

#[test]
fn change_for_zero_is_empty() {
    let change = make_change(0);
    assert!(change.is_empty());
    assert_eq!(total_value(&change), 0);
}

#[test]
fn change_uses_largest_coins_first() {
    assert_eq!(make_change(80), vec![25, 25, 25, 5]);
    assert_eq!(make_change(40), vec![25, 10, 5]);
    assert_eq!(make_change(500), vec![25; 20]);
}

#[test]
fn change_round_trips_for_multiples_of_five() {
    for amount in (0..=500).step_by(5) {
        assert_eq!(total_value(&make_change(amount)), amount);
    }
}

#[test]
fn change_leaves_a_sub_nickel_remainder_undispensed() {
    assert_eq!(make_change(7), vec![5]);
    assert_eq!(total_value(&make_change(7)), 5);
    assert_eq!(make_change(3), Vec::<u32>::new());
}

#[test]
fn total_value_sums_any_coins() {
    assert_eq!(total_value(&[]), 0);
    assert_eq!(total_value(&[5, 5, 25]), 35);
    assert_eq!(total_value(&[10; 7]), 70);
}
