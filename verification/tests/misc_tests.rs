use rust_examples::finite_state_machine::Crosswalk;
use rust_examples::finite_state_machine::TrafficLight;
use rust_examples::gumball::GumballMachine;
use rust_examples::gumball::GumballMachineState;
use rust_examples::linked_list::Node;
use rust_examples::vectors::fill_strings;
use rust_examples::vectors::make_2d_array;

#[test]
fn traffic_light_cycle() {
    let l = TrafficLight::new();
    assert_eq!(l, TrafficLight::Green);
    let l = l.next();
    assert_eq!(l, TrafficLight::Yellow);
    let l = l.next();
    assert_eq!(l, TrafficLight::Red);
    let l = l.next();
    assert_eq!(l, TrafficLight::Green);
}

#[test]
fn crosswalk_follows_light() {
    let mut c = Crosswalk::new();
    assert_eq!(c.light, TrafficLight::Green);
    c.next();
    c.next();
    assert_eq!(c.light, TrafficLight::Red);
    c.next();
    assert_eq!(c.light, TrafficLight::Green);
}

#[test]
fn linked_list_basics() {
    let mut root = Node::new(0);
    root.append(1);
    assert!(root.insert_after(2, 1));
    assert_eq!(root.length(), 3);
    assert!(!root.insert_after(9, 42));
    assert_eq!(root.length(), 3);
    root.append(7);
    assert_eq!(root.length(), 4);
}

#[test]
fn gumball_machine_quarters() {
    let mut m = GumballMachine::new(5);
    assert_eq!(m.state, GumballMachineState::NoQuarter);
    m.insert_quarter();
    assert_eq!(m.state, GumballMachineState::HasQuarter);
    m.insert_quarter();
    assert_eq!(m.state, GumballMachineState::HasQuarter);
    m.eject_quarter();
    assert_eq!(m.state, GumballMachineState::NoQuarter);
    m.eject_quarter();
    assert_eq!(m.state, GumballMachineState::NoQuarter);
    assert_eq!(m.count, 5);
}

#[test]
fn gumball_machine_sales() {
    let mut m = GumballMachine::new(3);
    m.insert_quarter();
    m.turn_crank();
    assert!(m.count == 2 || m.count == 1);
    if m.count > 0 {
        assert_eq!(m.state, GumballMachineState::NoQuarter);
    } else {
        assert_eq!(m.state, GumballMachineState::OutOfGumballs);
    }
    let mut turns = 0;
    while m.state != GumballMachineState::OutOfGumballs && turns < 10 {
        m.insert_quarter();
        m.turn_crank();
        turns += 1;
    }
    assert_eq!(m.count, 0);
    assert_eq!(m.state, GumballMachineState::OutOfGumballs);
    m.insert_quarter();
    assert_eq!(m.state, GumballMachineState::OutOfGumballs);
    m.turn_crank();
    assert_eq!(m.count, 0);
}

#[test]
fn empty_machine_starts_sold_out() {
    let m = GumballMachine::new(0);
    assert_eq!(m.state, GumballMachineState::OutOfGumballs);
}

#[test]
fn vector_builders() {
    let strings = fill_strings();
    assert_eq!(strings, vec!["hello".to_string(), "world".to_string()]);
    let grid = make_2d_array(2, 3, -1);
    assert_eq!(grid.len(), 2);
    for row in grid.iter() {
        assert_eq!(row.len(), 3);
        for cell in row.iter() {
            assert_eq!(*cell, -1);
        }
    }
}
