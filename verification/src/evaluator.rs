//! Building the transition table, evaluating action sequences against it,
//! and making change.

use vstd::prelude::*;

use crate::{Fsm, Transition, VendingAction, ActionModel, is_denomination, MAX_CENTS};

verus! {

// ---------------------------------------------------------------------------
// The mathematical model of a transition table.
// ---------------------------------------------------------------------------

/// The key of a table entry: the balance it starts from together with the
/// action taken.
pub open spec fn edge_key(t: Transition) -> (u32, ActionModel) {
    (t.from, t.action@)
}

/// No two entries of `table` share a key, so each (balance, action) pair
/// maps to at most one next balance.
pub open spec fn distinct_keys(table: Seq<Transition>) -> bool {
    forall|i: int, j: int|
        0 <= i < j < table.len() ==> #[trigger] edge_key(table[i]) != #[trigger] edge_key(table[j])
}

/// The next balance that `table` assigns to taking `action` at `state`:
/// the destination of the earliest entry whose key matches, if any.
pub open spec fn spec_lookup(table: Seq<Transition>, state: u32, action: ActionModel) -> Option<
    u32,
>
    decreases table.len(),
{
    if table.len() == 0 {
        None
    } else if edge_key(table[0]) == (state, action) {
        Some(table[0].to)
    } else {
        spec_lookup(table.drop_first(), state, action)
    }
}

/// Replaying `actions` in order from balance `start`: `None` as soon as one
/// action has no edge at the balance where it occurs, otherwise the final
/// balance.
pub open spec fn spec_run(table: Seq<Transition>, start: u32, actions: Seq<VendingAction>) -> Option<
    u32,
>
    decreases actions.len(),
{
    if actions.len() == 0 {
        Some(start)
    } else {
        match spec_lookup(table, start, actions[0]@) {
            Some(next) => spec_run(table, next, actions.drop_first()),
            None => None,
        }
    }
}

// ---------------------------------------------------------------------------
// Lemmas about lookup.
// ---------------------------------------------------------------------------

/// Appending an entry leaves every already-mapped key unchanged and maps the
/// new entry's key, if it was unmapped, to the new destination.
proof fn lemma_lookup_push(table: Seq<Transition>, e: Transition, state: u32, action: ActionModel)
    ensures
        spec_lookup(table.push(e), state, action) == (if spec_lookup(table, state, action) is Some {
            spec_lookup(table, state, action)
        } else if edge_key(e) == (state, action) {
            Some(e.to)
        } else {
            None::<u32>
        }),
    decreases table.len(),
{
    reveal_with_fuel(spec_lookup, 2);
    if table.len() == 0 {
        assert(table.push(e).drop_first() =~= Seq::<Transition>::empty());
    } else {
        assert(table.push(e).drop_first() =~= table.drop_first().push(e));
        lemma_lookup_push(table.drop_first(), e, state, action);
    }
}

/// A key that lookup does not map occurs in no entry of the table.
proof fn lemma_lookup_none(table: Seq<Transition>, state: u32, action: ActionModel)
    requires
        spec_lookup(table, state, action) is None,
    ensures
        forall|i: int| 0 <= i < table.len() ==> #[trigger] edge_key(table[i]) != (state, action),
    decreases table.len(),
{
    if table.len() > 0 {
        lemma_lookup_none(table.drop_first(), state, action);
        assert forall|i: int| 0 <= i < table.len() implies #[trigger] edge_key(table[i]) != (
        state,
        action,
        ) by {
            if i > 0 {
                assert(table.drop_first()[i - 1] == table[i]);
            }
        }
    }
}

// ---------------------------------------------------------------------------
// The mathematical model of a price catalog, and of the table the builder
// produces from one.
// ---------------------------------------------------------------------------

/// The identifier under which a catalog entry is keyed.
pub open spec fn item_key(entry: (String, u32)) -> Seq<char> {
    entry.0@
}

/// No two catalog entries share an identifier.
pub open spec fn catalog_keys_distinct(catalog: Seq<(String, u32)>) -> bool {
    forall|i: int, j: int|
        0 <= i < j < catalog.len() ==> #[trigger] item_key(catalog[i]) != #[trigger] item_key(
            catalog[j],
        )
}

/// The price `catalog` gives for `item`: the price of the earliest entry
/// keyed by `item`, if any.
pub open spec fn catalog_lookup(catalog: Seq<(String, u32)>, item: Seq<char>) -> Option<u32>
    decreases catalog.len(),
{
    if catalog.len() == 0 {
        None
    } else if item_key(catalog[0]) == item {
        Some(catalog[0].1)
    } else {
        catalog_lookup(catalog.drop_first(), item)
    }
}

/// The one edge, if any, that the machine built from `catalog` has for
/// taking `action` at balance `state`:
/// - inserting an accepted coin `d` moves `state` to `state + d` whenever
///   that stays within capacity;
/// - vending a cataloged item moves `state` to `state - price` whenever the
///   balance covers the price (every balance in the table is within
///   capacity, so `state <= MAX_CENTS` bounds the domain).
pub open spec fn edge_spec(catalog: Seq<(String, u32)>, state: u32, action: ActionModel) -> Option<
    u32,
> {
    match action {
        ActionModel::Insert(d) => if is_denomination(d) && state + d <= MAX_CENTS {
            Some((state + d) as u32)
        } else {
            None
        },
        ActionModel::Vend(item) => match catalog_lookup(catalog, item) {
            Some(price) => if price <= state && state <= MAX_CENTS {
                Some((state - price) as u32)
            } else {
                None
            },
            None => None,
        },
    }
}

// ---------------------------------------------------------------------------
// Lemmas about catalog lookup.
// ---------------------------------------------------------------------------

/// A priced item is the key of some catalog entry.
proof fn lemma_catalog_lookup_some(catalog: Seq<(String, u32)>, item: Seq<char>)
    requires
        catalog_lookup(catalog, item) is Some,
    ensures
        exists|j: int| 0 <= j < catalog.len() && item_key(catalog[j]) == item,
    decreases catalog.len(),
{
    if catalog.len() > 0 {
        if item_key(catalog[0]) == item {
            assert(0 <= 0 < catalog.len() && item_key(catalog[0]) == item);
        } else {
            lemma_catalog_lookup_some(catalog.drop_first(), item);
            let j = choose|j: int|
                0 <= j < catalog.drop_first().len() && item_key(catalog.drop_first()[j]) == item;
            assert(catalog.drop_first()[j] == catalog[j + 1]);
            assert(0 <= j + 1 < catalog.len() && item_key(catalog[j + 1]) == item);
        }
    }
}

/// Appending an entry leaves every already-priced item unchanged and prices
/// the new entry's key, if it was unpriced, at the new entry's price.
proof fn lemma_catalog_lookup_push(catalog: Seq<(String, u32)>, e: (String, u32), item: Seq<char>)
    ensures
        catalog_lookup(catalog.push(e), item) == (if catalog_lookup(catalog, item) is Some {
            catalog_lookup(catalog, item)
        } else if item_key(e) == item {
            Some(e.1)
        } else {
            None::<u32>
        }),
    decreases catalog.len(),
{
    reveal_with_fuel(catalog_lookup, 2);
    if catalog.len() == 0 {
        assert(catalog.push(e).drop_first() =~= Seq::<(String, u32)>::empty());
    } else {
        assert(catalog.push(e).drop_first() =~= catalog.drop_first().push(e));
        lemma_catalog_lookup_push(catalog.drop_first(), e, item);
    }
}

/// In a catalog with distinct keys, the entries before position `ci` do not
/// price the key of the entry at `ci`.
proof fn lemma_unique_key_not_in_prefix(catalog: Seq<(String, u32)>, ci: int)
    requires
        catalog_keys_distinct(catalog),
        0 <= ci < catalog.len(),
    ensures
        catalog_lookup(catalog.take(ci), item_key(catalog[ci])) is None,
{
    let prefix = catalog.take(ci);
    if catalog_lookup(prefix, item_key(catalog[ci])) is Some {
        lemma_catalog_lookup_some(prefix, item_key(catalog[ci]));
        let j = choose|j: int|
            0 <= j < prefix.len() && item_key(prefix[j]) == item_key(catalog[ci]);
        assert(prefix[j] == catalog[j]);
        assert(false);
    }
}

// ---------------------------------------------------------------------------
// Executable lookup.
// ---------------------------------------------------------------------------

/// Whether two actions are the same: same variant, same coin value or the
/// same item identifier.
fn action_eq(a: &VendingAction, b: &VendingAction) -> (r: bool)
    ensures
        r == (a@ == b@),
{
    match (a, b) {
        (VendingAction::Insert(d1), VendingAction::Insert(d2)) => d1 == d2,
        (VendingAction::Vend(s1), VendingAction::Vend(s2)) => s1.eq(s2),
        _ => false,
    }
}

impl Fsm {
    /// The next balance this machine's table assigns to taking `action` at
    /// `state`, if any.
    fn lookup(&self, state: u32, action: &VendingAction) -> (r: Option<u32>)
        ensures
            r == spec_lookup(self.transitions@, state, action@),
    {
        let n = self.transitions.len();
        let mut i: usize = 0;
        proof {
            assert(self.transitions@.skip(0) =~= self.transitions@);
        }
        while i < n
            invariant
                n == self.transitions@.len(),
                0 <= i <= n,
                spec_lookup(self.transitions@, state, action@) == spec_lookup(
                    self.transitions@.skip(i as int),
                    state,
                    action@,
                ),
            decreases n - i,
        {
            let t = &self.transitions[i];
            proof {
                assert(self.transitions@.skip(i as int)[0] == self.transitions@[i as int]);
            }
            if t.from == state && action_eq(&t.action, action) {
                return Some(t.to);
            }
            proof {
                assert(self.transitions@.skip(i as int).drop_first() =~= self.transitions@.skip(
                    i as int + 1,
                ));
            }
            i += 1;
        }
        None
    }

    /// Whether taking `action` at balance `current_state` has an edge in
    /// this machine's table.
    pub fn is_valid_transition(&self, current_state: u32, action: &VendingAction) -> (r: bool)
        ensures
            r == (spec_lookup(self.transitions@, current_state, action@) is Some),
    {
        self.lookup(current_state, action).is_some()
    }
}

// ---------------------------------------------------------------------------
// Building the transition table.
// ---------------------------------------------------------------------------

/// The table contents while insertion edges are being added: every
/// insertion edge whose starting balance is below `done`, and nothing else.
spec fn insert_edges_below(done: int, state: u32, action: ActionModel) -> Option<u32> {
    match action {
        ActionModel::Insert(d) => if is_denomination(d) && (state as int) < done && state + d
            <= MAX_CENTS {
            Some((state + d) as u32)
        } else {
            None
        },
        ActionModel::Vend(_) => None,
    }
}

/// The table contents while vend edges are being added: all insertion
/// edges, the vend edges of the first `done` catalog entries, and the vend
/// edges of entry `done` whose starting balance is below `balance_done`.
spec fn vend_edges_below(
    catalog: Seq<(String, u32)>,
    done: int,
    balance_done: int,
    state: u32,
    action: ActionModel,
) -> Option<u32> {
    match action {
        ActionModel::Insert(_) => edge_spec(catalog, state, action),
        ActionModel::Vend(item) => match catalog_lookup(catalog.take(done), item) {
            Some(price) => if price <= state && state <= MAX_CENTS {
                Some((state - price) as u32)
            } else {
                None
            },
            None => if done < catalog.len() && item_key(catalog[done]) == item
                && catalog[done].1 <= state && (state as int) < balance_done {
                Some((state - catalog[done].1) as u32)
            } else {
                None
            },
        },
    }
}

/// Append one edge to the table. The key of every other entry keeps its
/// destination; the new key, if it was unmapped, now maps to `to`.
fn push_edge(table: &mut Vec<Transition>, from: u32, action: VendingAction, to: u32)
    ensures
        forall|s2: u32, a2: ActionModel|
            #[trigger] spec_lookup(final(table)@, s2, a2) == (if spec_lookup(
                old(table)@,
                s2,
                a2,
            ) is Some {
                spec_lookup(old(table)@, s2, a2)
            } else if s2 == from && a2 == action@ {
                Some(to)
            } else {
                None::<u32>
            }),
        distinct_keys(old(table)@) && spec_lookup(old(table)@, from, action@) is None
            ==> distinct_keys(final(table)@),
{
    let ghost t0 = table@;
    let ghost key_action = action@;
    let entry = Transition { from, action, to };
    let ghost e = entry;
    table.push(entry);
    proof {
        assert(table@ == t0.push(e));
        assert(edge_key(e) == (from, key_action));
        assert forall|s2: u32, a2: ActionModel|
            #[trigger] spec_lookup(table@, s2, a2) == (if spec_lookup(t0, s2, a2) is Some {
                spec_lookup(t0, s2, a2)
            } else if s2 == from && a2 == key_action {
                Some(to)
            } else {
                None::<u32>
            }) by {
            lemma_lookup_push(t0, e, s2, a2);
        }
        if distinct_keys(t0) && spec_lookup(t0, from, key_action) is None {
            lemma_lookup_none(t0, from, key_action);
            assert forall|i: int, j: int|
                0 <= i < j < table@.len() implies #[trigger] edge_key(table@[i])
                != #[trigger] edge_key(table@[j]) by {
                assert(table@[i] == t0[i]);
                if j < t0.len() {
                    assert(table@[j] == t0[j]);
                } else {
                    assert(table@[j] == e);
                }
            }
        }
    }
}

impl Fsm {
    /// Build the machine for a price catalog: the start balance is 0 and
    /// the transition table holds exactly the edges of `edge_spec` — every
    /// coin insertion that stays within capacity, and every vend of a
    /// cataloged item from a balance that covers its price. Entries whose
    /// price exceeds the capacity simply get no edges.
    pub fn create(price_map: &Vec<(String, u32)>) -> (machine: Fsm)
        requires
            catalog_keys_distinct(price_map@),
        ensures
            machine.start == 0,
            distinct_keys(machine.transitions@),
            forall|state: u32, action: ActionModel|
                #[trigger] spec_lookup(machine.transitions@, state, action) == edge_spec(
                    price_map@,
                    state,
                    action,
                ),
    {
        let ghost catalog = price_map@;
        let mut transitions: Vec<Transition> = Vec::new();

        // Insertion edges, by ascending starting balance.
        let mut b: u32 = 0;
        proof {
            assert forall|s2: u32, a2: ActionModel|
                #[trigger] spec_lookup(transitions@, s2, a2) == insert_edges_below(0, s2, a2) by {}
        }
        while b <= MAX_CENTS
            invariant
                b <= MAX_CENTS + 1,
                distinct_keys(transitions@),
                forall|s2: u32, a2: ActionModel|
                    #[trigger] spec_lookup(transitions@, s2, a2) == insert_edges_below(
                        b as int,
                        s2,
                        a2,
                    ),
            decreases MAX_CENTS + 1 - b,
        {
            if b + 5 <= MAX_CENTS {
                push_edge(&mut transitions, b, VendingAction::Insert(5), b + 5);
            }
            if b + 10 <= MAX_CENTS {
                push_edge(&mut transitions, b, VendingAction::Insert(10), b + 10);
            }
            if b + 25 <= MAX_CENTS {
                push_edge(&mut transitions, b, VendingAction::Insert(25), b + 25);
            }
            proof {
                assert forall|s2: u32, a2: ActionModel|
                    #[trigger] spec_lookup(transitions@, s2, a2) == insert_edges_below(
                        b as int + 1,
                        s2,
                        a2,
                    ) by {}
            }
            b = b + 1;
        }

        // Vend edges, catalog entry by catalog entry.
        let mut ci: usize = 0;
        proof {
            assert(catalog.take(0) =~= Seq::<(String, u32)>::empty());
            assert forall|s2: u32, a2: ActionModel|
                #[trigger] spec_lookup(transitions@, s2, a2) == vend_edges_below(
                    catalog,
                    0,
                    0,
                    s2,
                    a2,
                ) by {}
        }
        while ci < price_map.len()
            invariant
                catalog == price_map@,
                catalog_keys_distinct(catalog),
                ci <= catalog.len(),
                distinct_keys(transitions@),
                forall|s2: u32, a2: ActionModel|
                    #[trigger] spec_lookup(transitions@, s2, a2) == vend_edges_below(
                        catalog,
                        ci as int,
                        0,
                        s2,
                        a2,
                    ),
            decreases catalog.len() - ci,
        {
            let price = price_map[ci].1;
            let mut balance: u32 = price;
            proof {
                lemma_unique_key_not_in_prefix(catalog, ci as int);
            }
            while balance <= MAX_CENTS
                invariant
                    catalog == price_map@,
                    catalog_keys_distinct(catalog),
                    ci < catalog.len(),
                    price == catalog[ci as int].1,
                    price <= balance,
                    balance <= MAX_CENTS + 1 || balance == price,
                    distinct_keys(transitions@),
                    forall|s2: u32, a2: ActionModel|
                        #[trigger] spec_lookup(transitions@, s2, a2) == vend_edges_below(
                            catalog,
                            ci as int,
                            balance as int,
                            s2,
                            a2,
                        ),
                decreases MAX_CENTS + 1 - balance,
            {
                let item = price_map[ci].0.clone();
                proof {
                    lemma_unique_key_not_in_prefix(catalog, ci as int);
                    assert(item@ == item_key(catalog[ci as int]));
                }
                push_edge(&mut transitions, balance, VendingAction::Vend(item), balance - price);
                proof {
                    assert forall|s2: u32, a2: ActionModel|
                        #[trigger] spec_lookup(transitions@, s2, a2) == vend_edges_below(
                            catalog,
                            ci as int,
                            balance as int + 1,
                            s2,
                            a2,
                        ) by {
                        match a2 {
                            ActionModel::Vend(itm) => {
                                if catalog_lookup(catalog.take(ci as int), itm) is Some && itm
                                    == item_key(catalog[ci as int]) {
                                    lemma_unique_key_not_in_prefix(catalog, ci as int);
                                }
                            },
                            ActionModel::Insert(_) => {},
                        }
                    }
                }
                balance = balance + 1;
            }
            proof {
                assert(catalog.take(ci as int + 1) =~= catalog.take(ci as int).push(
                    catalog[ci as int],
                ));
                assert forall|s2: u32, a2: ActionModel|
                    #[trigger] spec_lookup(transitions@, s2, a2) == vend_edges_below(
                        catalog,
                        ci as int + 1,
                        0,
                        s2,
                        a2,
                    ) by {
                    match a2 {
                        ActionModel::Vend(itm) => {
                            lemma_catalog_lookup_push(
                                catalog.take(ci as int),
                                catalog[ci as int],
                                itm,
                            );
                        },
                        ActionModel::Insert(_) => {},
                    }
                }
            }
            ci = ci + 1;
        }

        proof {
            assert(catalog.take(catalog.len() as int) =~= catalog);
            assert forall|state: u32, action: ActionModel|
                #[trigger] spec_lookup(transitions@, state, action) == edge_spec(
                    catalog,
                    state,
                    action,
                ) by {}
        }
        Fsm { start: 0, transitions }
    }
}

// ---------------------------------------------------------------------------
// Evaluation.
// ---------------------------------------------------------------------------

/// Replay `actions` in order against `fsm`'s table starting from
/// `start_state`, which need not be `fsm.start`. Fails at the first action
/// with no edge; an empty sequence yields the start balance unchanged.
pub fn run_actions(fsm: &Fsm, start_state: u32, actions: &[VendingAction]) -> (r: Option<u32>)
    ensures
        r == spec_run(fsm.transitions@, start_state, actions@),
        actions@.len() == 0 ==> r == Some(start_state),
{
    let mut current_state = start_state;
    let n = actions.len();
    let mut i: usize = 0;
    proof {
        assert(actions@.skip(0) =~= actions@);
    }
    while i < n
        invariant
            n == actions@.len(),
            0 <= i <= n,
            spec_run(fsm.transitions@, start_state, actions@) == spec_run(
                fsm.transitions@,
                current_state,
                actions@.skip(i as int),
            ),
        decreases n - i,
    {
        proof {
            assert(actions@.skip(i as int)[0] == actions@[i as int]);
        }
        match fsm.lookup(current_state, &actions[i]) {
            Some(next) => {
                proof {
                    assert(actions@.skip(i as int).drop_first() =~= actions@.skip(i as int + 1));
                }
                current_state = next;
            },
            None => {
                return None;
            },
        }
        i += 1;
    }
    Some(current_state)
}

/// Replay `actions` against `fsm`'s table starting from `fsm.start`.
pub fn evaluate(fsm: &Fsm, actions: &[VendingAction]) -> (r: Option<u32>)
    ensures
        r == spec_run(fsm.transitions@, fsm.start, actions@),
        actions@.len() == 0 ==> r == Some(fsm.start),
{
    run_actions(fsm, fsm.start, actions)
}

impl Fsm {
    /// Whether `actions` is a valid interaction with this machine: every
    /// step has an edge, and the final balance the machine is left holding
    /// is within its capacity.
    pub fn eval(&self, actions: &[VendingAction]) -> (r: bool)
        ensures
            r == (match spec_run(self.transitions@, self.start, actions@) {
                Some(final_state) => final_state <= MAX_CENTS,
                None => false,
            }),
            actions@.len() == 0 ==> r == (self.start <= MAX_CENTS),
    {
        match run_actions(self, self.start, actions) {
            Some(final_state) => final_state <= MAX_CENTS,
            None => false,
        }
    }
}

// ---------------------------------------------------------------------------
// Making change.
// ---------------------------------------------------------------------------

/// The sum, in cents, of a sequence of coin values.
pub open spec fn spec_sum(coins: Seq<u32>) -> int
    decreases coins.len(),
{
    if coins.len() == 0 {
        0
    } else {
        spec_sum(coins.drop_last()) + coins.last()
    }
}

/// The coins the greedy strategy dispenses for `amount`: as many quarters
/// as fit, then dimes, then nickels. A remainder smaller than a nickel is
/// left undispensed.
pub open spec fn spec_make_change(amount: u32) -> Seq<u32> {
    Seq::new((amount / 25) as nat, |i: int| 25u32) + Seq::new(
        (amount % 25 / 10) as nat,
        |i: int| 10u32,
    ) + Seq::new((amount % 25 % 10 / 5) as nat, |i: int| 5u32)
}

/// `count` coins of one value sum to `count * coin`.
proof fn lemma_sum_repeat(count: nat, coin: u32)
    ensures
        spec_sum(Seq::new(count, |i: int| coin)) == count * coin,
    decreases count,
{
    reveal_with_fuel(spec_sum, 2);
    let repeated = Seq::new(count, |i: int| coin);
    if count > 0 {
        assert(repeated.drop_last() =~= Seq::new((count - 1) as nat, |i: int| coin));
        lemma_sum_repeat((count - 1) as nat, coin);
        assert(repeated.last() == coin);
        assert(spec_sum(repeated) == spec_sum(repeated.drop_last()) + coin);
        assert(spec_sum(repeated.drop_last()) == ((count - 1) as nat) * coin);
        assert(count * coin == ((count - 1) as nat) * coin + coin) by (nonlinear_arith)
            requires
                count > 0,
        ;
    } else {
        assert(repeated.len() == 0);
        assert(spec_sum(repeated) == 0);
        assert(count * coin == 0) by (nonlinear_arith)
            requires
                count == 0,
        ;
    }
}

/// Summing a concatenation sums the two parts.
proof fn lemma_sum_concat(left: Seq<u32>, right: Seq<u32>)
    ensures
        spec_sum(left + right) == spec_sum(left) + spec_sum(right),
    decreases right.len(),
{
    if right.len() == 0 {
        assert(left + right =~= left);
    } else {
        assert((left + right).drop_last() =~= left + right.drop_last());
        lemma_sum_concat(left, right.drop_last());
    }
}

/// A sum of coin values is never negative.
proof fn lemma_sum_nonneg(coins: Seq<u32>)
    ensures
        spec_sum(coins) >= 0,
    decreases coins.len(),
{
    if coins.len() > 0 {
        lemma_sum_nonneg(coins.drop_last());
    }
}

/// A prefix never sums to more than the whole sequence.
proof fn lemma_sum_take_bound(coins: Seq<u32>, n: int)
    requires
        0 <= n <= coins.len(),
    ensures
        spec_sum(coins.take(n)) <= spec_sum(coins),
{
    assert(coins =~= coins.take(n) + coins.skip(n));
    lemma_sum_concat(coins.take(n), coins.skip(n));
    lemma_sum_nonneg(coins.skip(n));
}

/// The greedy change for `amount` sums to `amount` less the remainder that
/// no accepted coin can cover.
pub proof fn lemma_change_total(amount: u32)
    ensures
        spec_sum(spec_make_change(amount)) == amount - amount % 5,
{
    let quarters = Seq::new((amount / 25) as nat, |i: int| 25u32);
    let dimes = Seq::new((amount % 25 / 10) as nat, |i: int| 10u32);
    let nickels = Seq::new((amount % 25 % 10 / 5) as nat, |i: int| 5u32);
    lemma_sum_concat(quarters + dimes, nickels);
    lemma_sum_concat(quarters, dimes);
    lemma_sum_repeat((amount / 25) as nat, 25);
    lemma_sum_repeat((amount % 25 / 10) as nat, 10);
    lemma_sum_repeat((amount % 25 % 10 / 5) as nat, 5);
    vstd::arithmetic::div_mod::lemma_fundamental_div_mod(amount as int, 25);
    vstd::arithmetic::div_mod::lemma_fundamental_div_mod(amount as int % 25, 10);
    vstd::arithmetic::div_mod::lemma_fundamental_div_mod(amount as int % 25 % 10, 5);
    vstd::arithmetic::div_mod::lemma_fundamental_div_mod_converse(
        amount as int,
        5,
        5 * (amount as int / 25) + 2 * (amount as int % 25 / 10) + amount as int % 25 % 10 / 5,
        amount as int % 25 % 10 % 5,
    );
}

/// Law: an amount expressible with nickels, dimes and quarters — any
/// multiple of 5 cents — comes back in full: its greedy change sums to
/// exactly the amount.
pub proof fn lemma_change_round_trip(amount: u32)
    requires
        amount % 5 == 0,
    ensures
        spec_sum(spec_make_change(amount)) == amount,
{
    lemma_change_total(amount);
}

/// Append `count` coins of value `coin` to `change`.
fn push_coins(change: &mut Vec<u32>, coin: u32, count: u32)
    ensures
        final(change)@ == old(change)@ + Seq::new(count as nat, |i: int| coin),
{
    let mut i: u32 = 0;
    proof {
        assert(change@ =~= change@ + Seq::new(0, |j: int| coin));
    }
    while i < count
        invariant
            i <= count,
            change@ == old(change)@ + Seq::new(i as nat, |j: int| coin),
        decreases count - i,
    {
        change.push(coin);
        proof {
            assert(change@ =~= old(change)@ + Seq::new((i + 1) as nat, |j: int| coin));
        }
        i = i + 1;
    }
}

/// Convert `amount` cents into coins, greedily, largest denomination
/// first: quarters, then dimes, then nickels. Any remainder smaller than a
/// nickel is silently left undispensed, so the result sums to `amount`
/// rounded down to a multiple of 5.
pub fn make_change(amount: u32) -> (change: Vec<u32>)
    ensures
        change@ == spec_make_change(amount),
        spec_sum(change@) == amount - amount % 5,
        amount % 5 == 0 ==> spec_sum(change@) == amount,
{
    let mut change: Vec<u32> = Vec::new();
    let mut remaining = amount;

    let quarters = remaining / 25;
    push_coins(&mut change, 25, quarters);
    remaining = remaining % 25;

    let dimes = remaining / 10;
    push_coins(&mut change, 10, dimes);
    remaining = remaining % 10;

    let nickels = remaining / 5;
    push_coins(&mut change, 5, nickels);

    proof {
        assert(change@ =~= spec_make_change(amount));
        lemma_change_total(amount);
    }
    change
}

/// The total value, in cents, of a sequence of coins. The sum must fit the
/// return type; every amount a real machine handles is far below that.
pub fn total_value(coins: &[u32]) -> (total: u32)
    requires
        spec_sum(coins@) <= u32::MAX,
    ensures
        total == spec_sum(coins@),
{
    let mut total: u32 = 0;
    let mut i: usize = 0;
    proof {
        assert(coins@.take(0) =~= Seq::<u32>::empty());
    }
    while i < coins.len()
        invariant
            i <= coins@.len(),
            spec_sum(coins@) <= u32::MAX,
            total == spec_sum(coins@.take(i as int)),
        decreases coins@.len() - i,
    {
        proof {
            assert(coins@.take(i as int + 1).drop_last() =~= coins@.take(i as int));
            assert(coins@.take(i as int + 1).last() == coins@[i as int]);
            lemma_sum_take_bound(coins@, i as int + 1);
        }
        total = total + coins[i];
        i += 1;
    }
    proof {
        assert(coins@.take(coins@.len() as int) =~= coins@);
    }
    total
}

// ---------------------------------------------------------------------------
// Laws of evaluation.
// ---------------------------------------------------------------------------

/// Law: replaying an empty action sequence yields the start balance
/// unchanged, whatever the table.
pub proof fn lemma_run_empty(table: Seq<Transition>, start: u32)
    ensures
        spec_run(table, start, Seq::<VendingAction>::empty()) == Some(start),
{
}

/// Law: a replay works through `first` and then, from wherever `first`
/// ends, through `rest`; in particular a failed replay stays failed
/// whatever actions follow.
pub proof fn lemma_run_append(
    table: Seq<Transition>,
    start: u32,
    first: Seq<VendingAction>,
    rest: Seq<VendingAction>,
)
    ensures
        spec_run(table, start, first + rest) == (match spec_run(table, start, first) {
            Some(mid) => spec_run(table, mid, rest),
            None => None::<u32>,
        }),
    decreases first.len(),
{
    if first.len() == 0 {
        assert(first + rest =~= rest);
    } else {
        assert((first + rest).drop_first() =~= first.drop_first() + rest);
        assert((first + rest)[0] == first[0]);
        match spec_lookup(table, start, first[0]@) {
            Some(next) => lemma_run_append(table, next, first.drop_first(), rest),
            None => {},
        }
    }
}

/// Law: an action with no edge at the balance where it occurs fails the
/// whole replay, and no action after the failing one affects the result.
pub proof fn lemma_run_short_circuit(
    table: Seq<Transition>,
    start: u32,
    actions: Seq<VendingAction>,
    i: int,
)
    requires
        0 <= i < actions.len(),
        match spec_run(table, start, actions.take(i)) {
            Some(mid) => spec_lookup(table, mid, actions[i]@) is None,
            None => true,
        },
    ensures
        spec_run(table, start, actions) is None,
{
    match spec_run(table, start, actions.take(i)) {
        None => {
            assert(actions =~= actions.take(i) + actions.skip(i));
            lemma_run_append(table, start, actions.take(i), actions.skip(i));
        },
        Some(mid) => {
            assert(actions.take(i + 1) =~= actions.take(i) + seq![actions[i]]);
            lemma_run_append(table, start, actions.take(i), seq![actions[i]]);
            assert(spec_run(table, mid, seq![actions[i]]) is None);
            assert(actions =~= actions.take(i + 1) + actions.skip(i + 1));
            lemma_run_append(table, start, actions.take(i + 1), actions.skip(i + 1));
        },
    }
}

/// Law: every edge the builder gives a machine keeps both endpoints within
/// capacity: balances never leave [0, MAX_CENTS].
pub proof fn lemma_edge_spec_in_range(
    catalog: Seq<(String, u32)>,
    state: u32,
    action: ActionModel,
)
    ensures
        edge_spec(catalog, state, action) matches Some(next) ==> next <= MAX_CENTS && state
            <= MAX_CENTS,
{
}

/// Replaying a sequence of coin insertions whose running total never
/// exceeds capacity adds the coins' total to the start balance.
proof fn lemma_run_inserts(
    table: Seq<Transition>,
    catalog: Seq<(String, u32)>,
    coins: Seq<u32>,
    inserts: Seq<VendingAction>,
    start: u32,
)
    requires
        forall|state: u32, action: ActionModel|
            #[trigger] spec_lookup(table, state, action) == edge_spec(catalog, state, action),
        inserts.len() == coins.len(),
        forall|i: int|
            0 <= i < coins.len() ==> is_denomination(#[trigger] coins[i]) && inserts[i]@
                == ActionModel::Insert(coins[i]),
        forall|i: int| 0 <= i <= coins.len() ==> start + spec_sum(#[trigger] coins.take(i))
            <= MAX_CENTS,
    ensures
        spec_run(table, start, inserts) == Some(((start + spec_sum(coins)) as u32)),
    decreases coins.len(),
{
    reveal_with_fuel(spec_sum, 2);
    reveal_with_fuel(spec_run, 2);
    if coins.len() == 0 {
        assert(inserts =~= Seq::<VendingAction>::empty());
        assert(coins =~= coins.take(0));
    } else {
        let head = coins[0];
        assert(coins.take(1).drop_last() =~= Seq::<u32>::empty());
        assert(spec_sum(coins.take(1)) == head);
        assert(start + head <= MAX_CENTS);
        assert(inserts[0]@ == ActionModel::Insert(head));
        let next = (start + head) as u32;
        assert(spec_lookup(table, start, inserts[0]@) == Some(next));
        let coins2 = coins.drop_first();
        let inserts2 = inserts.drop_first();
        assert forall|i: int|
            0 <= i < coins2.len() implies is_denomination(#[trigger] coins2[i]) && inserts2[i]@
            == ActionModel::Insert(coins2[i]) by {
            assert(coins2[i] == coins[i + 1]);
            assert(inserts2[i] == inserts[i + 1]);
        }
        assert forall|i: int|
            0 <= i <= coins2.len() implies next + spec_sum(#[trigger] coins2.take(i))
            <= MAX_CENTS by {
            assert(coins.take(i + 1) =~= seq![head] + coins2.take(i));
            lemma_sum_concat(seq![head], coins2.take(i));
            assert(seq![head].drop_last() =~= Seq::<u32>::empty());
            assert(spec_sum(seq![head]) == head);
        }
        lemma_run_inserts(table, catalog, coins2, inserts2, next);
        assert(coins =~= seq![head] + coins2);
        lemma_sum_concat(seq![head], coins2);
        assert(seq![head].drop_last() =~= Seq::<u32>::empty());
        assert(spec_sum(seq![head]) == head);
    }
}

/// Law: from a start balance of 0, inserting accepted coins whose running
/// total never exceeds capacity and then vending a cataloged item that the
/// total covers always succeeds, and the balance left is the coins' total
/// minus the item's price.
pub proof fn lemma_round_trip(
    table: Seq<Transition>,
    catalog: Seq<(String, u32)>,
    coins: Seq<u32>,
    inserts: Seq<VendingAction>,
    vend: VendingAction,
    item: Seq<char>,
    price: u32,
)
    requires
        forall|state: u32, action: ActionModel|
            #[trigger] spec_lookup(table, state, action) == edge_spec(catalog, state, action),
        catalog_lookup(catalog, item) == Some(price),
        vend@ == ActionModel::Vend(item),
        inserts.len() == coins.len(),
        forall|i: int|
            0 <= i < coins.len() ==> is_denomination(#[trigger] coins[i]) && inserts[i]@
                == ActionModel::Insert(coins[i]),
        forall|i: int| 0 <= i <= coins.len() ==> spec_sum(#[trigger] coins.take(i)) <= MAX_CENTS,
        spec_sum(coins) >= price,
    ensures
        spec_run(table, 0, inserts.push(vend)) == Some(((spec_sum(coins) - price) as u32)),
{
    reveal_with_fuel(spec_run, 2);
    assert forall|i: int| 0 <= i <= coins.len() implies 0 + spec_sum(#[trigger] coins.take(i))
        <= MAX_CENTS by {}
    lemma_run_inserts(table, catalog, coins, inserts, 0);
    let total = (0 + spec_sum(coins)) as u32;
    assert(coins.take(coins.len() as int) =~= coins);
    assert(total <= MAX_CENTS);
    assert(inserts.push(vend) =~= inserts + seq![vend]);
    lemma_run_append(table, 0, inserts, seq![vend]);
    assert(spec_lookup(table, total, vend@) == Some((total - price) as u32));
    assert(seq![vend].drop_first() =~= Seq::<VendingAction>::empty());
    assert(spec_run(table, (total - price) as u32, seq![vend].drop_first()) == Some(
        (total - price) as u32,
    ));
}

} // verus!
