//! A small library of verified components: an INI configuration store with a
//! proved parse/serialize round trip, a calendar date type, Fibonacci
//! computations, sequence maxima, simple state machines and a linked list.

pub mod closures;
pub mod date;
pub mod decorator;
pub mod fibonacci;
pub mod find_max;
pub mod finite_state_machine;
pub mod gumball;
pub mod ini_model;
pub mod inifile;
pub mod libfibonacci;
pub mod linked_list;
pub mod text;
pub mod vectors;
