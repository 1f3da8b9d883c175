//! A coin-operated vending machine modelled as a finite state machine.
//!
//! A machine state is the balance, in cents, held during one transaction.
//! `Fsm::create` builds the full transition table for a price catalog; the
//! [`evaluator`] module replays customer actions against such a table, and a
//! small change-making utility converts a cents amount into coins.

use vstd::prelude::*;

pub mod evaluator;

verus! {

/// The largest balance, in cents, that the machine can hold.
pub const MAX_CENTS: u32 = 500;

/// Whether `d` is one of the accepted coin values: 5, 10 or 25 cents.
pub open spec fn is_denomination(d: u32) -> bool {
    d == 5 || d == 10 || d == 25
}

/// An action a customer can take: insert a coin, or ask the machine to
/// dispense an item.
#[derive(Clone, Debug, PartialEq, Eq, Hash)]
pub enum VendingAction {
    /// Insert the given number of cents into the machine.
    Insert(u32),
    /// Attempt to dispense the item with the given identifier.
    Vend(String),
}

/// The mathematical value of a [`VendingAction`]: an item identifier is
/// abstracted to its character sequence.
pub enum ActionModel {
    Insert(u32),
    Vend(Seq<char>),
}

impl View for VendingAction {
    type V = ActionModel;

    open spec fn view(&self) -> ActionModel {
        match self {
            VendingAction::Insert(d) => ActionModel::Insert(*d),
            VendingAction::Vend(item) => ActionModel::Vend(item@),
        }
    }
}

/// One edge of a transition table: taking `action` while holding balance
/// `from` leaves the machine holding balance `to`.
#[derive(Clone, Debug, PartialEq, Eq)]
pub struct Transition {
    pub from: u32,
    pub action: VendingAction,
    pub to: u32,
}

/// A finite state machine representing the vending machine.
///
/// Every balance is implicitly both reachable and final: a sequence of
/// actions is accepted exactly when each step has an edge in the table.
#[derive(Clone, Debug, PartialEq, Eq)]
pub struct Fsm {
    /// The balance the machine starts from.
    pub start: u32,
    /// The transition table. Lookup takes the earliest entry whose
    /// (balance, action) key matches; tables built by `Fsm::create` never
    /// hold two entries with the same key.
    pub transitions: Vec<Transition>,
}

} // verus!
