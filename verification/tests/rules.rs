use inets::book::{Book, Template};
use inets::error::Error;
use inets::net::{Net, Node};
use inets::ptr::Ptr;
use inets::rules::{
    apply_op, compute_op, flip_op, OP_ADD, OP_AND, OP_DIV, OP_EQ, OP_FLIP, OP_GT, OP_LT, OP_MUL,
    OP_OR, OP_REM, OP_SUB, OP_XOR,
};

/// A net with `n` agents whose ports hold erasers.
fn agents(capacity: usize, n: u64) -> Net {
    let mut net = Net::new(capacity);
    for i in 0..n {
        assert_eq!(net.allocate(), Ok(i));
    }
    net
}

/// Agents 0 and 1 face each other; their ports are wired to the ports of
/// agents 2 and 3.
fn pair_with_neighbours(capacity: usize) -> Net {
    let mut net = agents(capacity, 4);
    net.link(Ptr::Aux1(0), Ptr::Aux1(2)).unwrap();
    net.link(Ptr::Aux2(0), Ptr::Aux2(2)).unwrap();
    net.link(Ptr::Aux1(1), Ptr::Aux1(3)).unwrap();
    net.link(Ptr::Aux2(1), Ptr::Aux2(3)).unwrap();
    net
}

#[test]
fn two_constructors_annihilate() {
    let mut net = pair_with_neighbours(8);
    let book = Book::new();
    assert_eq!(net.interact(&book, Ptr::Con(0), Ptr::Con(1)), Ok(()));
    assert_eq!(net.live_count(), 2);
    assert!(!net.is_live(0));
    assert!(!net.is_live(1));
    assert_eq!(net.target(Ptr::Aux1(2)), Some(Ptr::Aux1(3)));
    assert_eq!(net.target(Ptr::Aux1(3)), Some(Ptr::Aux1(2)));
    assert_eq!(net.target(Ptr::Aux2(2)), Some(Ptr::Aux2(3)));
    assert_eq!(net.target(Ptr::Aux2(3)), Some(Ptr::Aux2(2)));
    assert_eq!(net.rwts, 1);
    assert_eq!(net.dref, 0);
    assert!(net.acts.is_empty());
}

#[test]
fn duplicators_of_one_color_annihilate() {
    let mut net = pair_with_neighbours(8);
    let book = Book::new();
    assert_eq!(net.interact(&book, Ptr::Dup(5, 0), Ptr::Dup(5, 1)), Ok(()));
    assert_eq!(net.live_count(), 2);
    assert_eq!(net.target(Ptr::Aux1(2)), Some(Ptr::Aux1(3)));
    assert_eq!(net.target(Ptr::Aux2(3)), Some(Ptr::Aux2(2)));
    assert_eq!(net.rwts, 1);
}

#[test]
fn annihilation_through_a_self_wired_agent() {
    let mut net = agents(8, 3);
    net.link(Ptr::Aux1(0), Ptr::Aux2(0)).unwrap();
    net.link(Ptr::Aux1(1), Ptr::Aux1(2)).unwrap();
    net.link(Ptr::Aux2(1), Ptr::Aux2(2)).unwrap();
    let book = Book::new();
    assert_eq!(net.interact(&book, Ptr::Con(0), Ptr::Con(1)), Ok(()));
    assert_eq!(net.live_count(), 1);
    assert_eq!(net.target(Ptr::Aux1(2)), Some(Ptr::Aux2(2)));
    assert_eq!(net.target(Ptr::Aux2(2)), Some(Ptr::Aux1(2)));
}

#[test]
fn duplicators_of_different_colors_commute() {
    let mut net = pair_with_neighbours(8);
    let book = Book::new();
    assert_eq!(net.interact(&book, Ptr::Dup(1, 0), Ptr::Dup(2, 1)), Ok(()));
    assert_eq!(net.live_count(), 6);
    assert!(!net.is_live(0));
    assert!(!net.is_live(1));
    for a in 4..8 {
        assert!(net.is_live(a));
    }
    assert_eq!(net.rwts, 1);
    // The neighbours of agent 0 now see copies of agent 1, and the other way round.
    assert_eq!(net.target(Ptr::Aux1(2)), Some(Ptr::Dup(2, 4)));
    assert_eq!(net.target(Ptr::Aux2(2)), Some(Ptr::Dup(2, 5)));
    assert_eq!(net.target(Ptr::Aux1(3)), Some(Ptr::Dup(1, 6)));
    assert_eq!(net.target(Ptr::Aux2(3)), Some(Ptr::Dup(1, 7)));
    // The copies are wired crosswise.
    assert_eq!(net.target(Ptr::Aux1(4)), Some(Ptr::Aux1(6)));
    assert_eq!(net.target(Ptr::Aux2(4)), Some(Ptr::Aux1(7)));
    assert_eq!(net.target(Ptr::Aux1(5)), Some(Ptr::Aux2(6)));
    assert_eq!(net.target(Ptr::Aux2(5)), Some(Ptr::Aux2(7)));
    assert_eq!(net.target(Ptr::Aux1(6)), Some(Ptr::Aux1(4)));
    assert_eq!(net.target(Ptr::Aux2(6)), Some(Ptr::Aux1(5)));
    assert_eq!(net.target(Ptr::Aux1(7)), Some(Ptr::Aux2(4)));
    assert_eq!(net.target(Ptr::Aux2(7)), Some(Ptr::Aux2(5)));
}

#[test]
fn constructor_and_duplicator_commute() {
    let mut net = pair_with_neighbours(8);
    let book = Book::new();
    assert_eq!(net.interact(&book, Ptr::Con(0), Ptr::Dup(1, 1)), Ok(()));
    assert_eq!(net.live_count(), 6);
    assert_eq!(net.target(Ptr::Aux1(2)), Some(Ptr::Dup(1, 4)));
    assert_eq!(net.target(Ptr::Aux1(3)), Some(Ptr::Con(6)));
    assert_eq!(net.rwts, 1);
}

#[test]
fn two_operators_commute() {
    let mut net = pair_with_neighbours(8);
    let book = Book::new();
    assert_eq!(
        net.interact(&book, Ptr::Opr(OP_ADD, 0), Ptr::Opr(OP_ADD, 1)),
        Ok(())
    );
    assert_eq!(net.live_count(), 6);
    assert_eq!(net.target(Ptr::Aux1(2)), Some(Ptr::Opr(OP_ADD, 4)));
}

#[test]
fn commutation_needs_four_free_slots() {
    let mut net = pair_with_neighbours(7);
    let book = Book::new();
    assert_eq!(
        net.interact(&book, Ptr::Con(0), Ptr::Dup(1, 1)),
        Err(Error::OutOfMemory)
    );
}

#[test]
fn eraser_erases_both_ports() {
    let mut net = agents(4, 2);
    net.link(Ptr::Aux1(0), Ptr::Aux1(1)).unwrap();
    net.write(Ptr::Aux2(0), Ptr::Con(1)).unwrap();
    let book = Book::new();
    assert_eq!(net.interact(&book, Ptr::Era, Ptr::Con(0)), Ok(()));
    assert_eq!(net.live_count(), 1);
    assert_eq!(net.target(Ptr::Aux1(1)), Some(Ptr::Era));
    assert_eq!(net.acts, vec![(Ptr::Con(1), Ptr::Era)]);
    assert_eq!(net.rwts, 1);
}

#[test]
fn numeral_is_copied_into_a_constructor() {
    let mut net = agents(4, 2);
    net.link(Ptr::Aux1(0), Ptr::Aux1(1)).unwrap();
    net.link(Ptr::Aux2(0), Ptr::Aux2(1)).unwrap();
    let book = Book::new();
    assert_eq!(net.interact(&book, Ptr::Con(0), Ptr::Num(7)), Ok(()));
    assert_eq!(net.live_count(), 1);
    assert_eq!(net.target(Ptr::Aux1(1)), Some(Ptr::Num(7)));
    assert_eq!(net.target(Ptr::Aux2(1)), Some(Ptr::Num(7)));
}

#[test]
fn two_agents_without_ports_vanish() {
    let mut net = agents(4, 1);
    let book = Book::new();
    assert_eq!(net.interact(&book, Ptr::Era, Ptr::Era), Ok(()));
    assert_eq!(net.interact(&book, Ptr::Era, Ptr::Num(1)), Ok(()));
    assert_eq!(net.interact(&book, Ptr::Num(2), Ptr::Num(1)), Ok(()));
    assert_eq!(net.interact(&book, Ptr::Ref(99), Ptr::Era), Ok(()));
    assert_eq!(net.interact(&book, Ptr::Era, Ptr::Ref(99)), Ok(()));
    assert_eq!(net.rwts, 5);
    assert_eq!(net.dref, 0);
    assert_eq!(net.live_count(), 1);
    assert!(net.acts.is_empty());
}

#[test]
fn a_port_is_no_side_of_a_pair() {
    let mut net = agents(4, 1);
    let book = Book::new();
    assert_eq!(
        net.interact(&book, Ptr::Aux1(0), Ptr::Era),
        Err(Error::OutOfRange(Ptr::Aux1(0)))
    );
    assert_eq!(
        net.interact(&book, Ptr::Era, Ptr::Root),
        Err(Error::OutOfRange(Ptr::Root))
    );
}

#[test]
fn a_pair_on_a_dead_agent_is_out_of_range() {
    let mut net = agents(4, 1);
    let book = Book::new();
    assert_eq!(
        net.interact(&book, Ptr::Era, Ptr::Con(3)),
        Err(Error::OutOfRange(Ptr::Aux1(3)))
    );
    assert_eq!(
        net.interact(&book, Ptr::Con(0), Ptr::Con(0)),
        Err(Error::OutOfRange(Ptr::Con(0)))
    );
}

#[test]
fn commutation_allocates_nothing_for_a_dead_agent() {
    let mut net = agents(8, 1);
    let book = Book::new();
    assert_eq!(
        net.interact(&book, Ptr::Con(0), Ptr::Dup(1, 2)),
        Err(Error::OutOfRange(Ptr::Dup(1, 2)))
    );
    assert_eq!(
        net.interact(&book, Ptr::Dup(1, 3), Ptr::Con(0)),
        Err(Error::OutOfRange(Ptr::Dup(1, 3)))
    );
    assert_eq!(net.live_count(), 1);
    assert!(net.is_live(0));
}

#[test]
fn operator_with_both_numerals_computes() {
    let mut net = agents(4, 2);
    net.write(Ptr::Aux1(0), Ptr::Num(2u64.wrapping_neg())).unwrap();
    net.link(Ptr::Aux2(0), Ptr::Aux1(1)).unwrap();
    let book = Book::new();
    assert_eq!(net.interact(&book, Ptr::Opr(OP_ADD, 0), Ptr::Num(1)), Ok(()));
    assert_eq!(net.target(Ptr::Aux1(1)), Some(Ptr::Num(u64::MAX)));
    assert_eq!(net.live_count(), 1);
    assert_eq!(net.rwts, 1);
}

#[test]
fn operator_waits_for_its_second_numeral() {
    let mut net = agents(4, 2);
    net.link(Ptr::Aux1(0), Ptr::Aux1(1)).unwrap();
    net.link(Ptr::Aux2(0), Ptr::Aux2(1)).unwrap();
    let book = Book::new();
    assert_eq!(net.interact(&book, Ptr::Num(10), Ptr::Opr(OP_SUB, 0)), Ok(()));
    assert_eq!(net.live_count(), 2);
    assert_eq!(net.target(Ptr::Aux1(0)), Some(Ptr::Num(10)));
    assert_eq!(
        net.target(Ptr::Aux1(1)),
        Some(Ptr::Opr(OP_SUB + OP_FLIP, 0))
    );
    // The second numeral arrives: 10 - 3.
    assert_eq!(
        net.interact(&book, Ptr::Opr(OP_SUB + OP_FLIP, 0), Ptr::Num(3)),
        Ok(())
    );
    assert_eq!(net.target(Ptr::Aux2(1)), Some(Ptr::Num(7)));
    assert_eq!(net.live_count(), 1);
    assert_eq!(net.rwts, 2);
}

#[test]
fn opcodes() {
    assert_eq!(apply_op(OP_ADD, 3, 4), 7);
    assert_eq!(apply_op(OP_ADD, u64::MAX, 2), 1);
    assert_eq!(apply_op(OP_SUB, 3, 4), u64::MAX);
    assert_eq!(apply_op(OP_SUB, 9, 4), 5);
    assert_eq!(apply_op(OP_MUL, 6, 7), 42);
    assert_eq!(apply_op(OP_MUL, 1 << 63, 2), 0);
    assert_eq!(apply_op(OP_DIV, 42, 5), 8);
    assert_eq!(apply_op(OP_DIV, 42, 0), 0);
    assert_eq!(apply_op(OP_REM, 42, 5), 2);
    assert_eq!(apply_op(OP_REM, 42, 0), 0);
    assert_eq!(apply_op(OP_AND, 12, 10), 8);
    assert_eq!(apply_op(OP_OR, 12, 10), 14);
    assert_eq!(apply_op(OP_XOR, 12, 10), 6);
    assert_eq!(apply_op(OP_EQ, 5, 5), 1);
    assert_eq!(apply_op(OP_EQ, 5, 6), 0);
    assert_eq!(apply_op(OP_LT, 5, 6), 1);
    assert_eq!(apply_op(OP_LT, 6, 5), 0);
    assert_eq!(apply_op(OP_GT, 6, 5), 1);
    assert_eq!(apply_op(OP_GT, 5, 6), 0);
    assert_eq!(apply_op(11, 5, 6), 0);
    assert_eq!(flip_op(OP_SUB), OP_SUB + OP_FLIP);
    assert_eq!(flip_op(OP_SUB + OP_FLIP), OP_SUB);
    assert_eq!(compute_op(OP_SUB, 9, 4), 5);
    assert_eq!(compute_op(OP_SUB + OP_FLIP, 9, 4), 4u64.wrapping_sub(9));
}

fn identity() -> Template {
    // One constructor whose two ports are wired to each other.
    Template {
        nodes: vec![Node { p1: Ptr::Aux2(0), p2: Ptr::Aux1(0), live: true }],
        root: Ptr::Con(0),
        acts: vec![],
    }
}

#[test]
fn instantiate_moves_the_template() {
    let mut net = agents(8, 3);
    let t = Template {
        nodes: vec![
            Node { p1: Ptr::Aux2(1), p2: Ptr::Root, live: true },
            Node { p1: Ptr::Ref(4), p2: Ptr::Aux1(0), live: true },
        ],
        root: Ptr::Aux2(0),
        acts: vec![(Ptr::Ref(5), Ptr::Dup(2, 1))],
    };
    assert_eq!(net.instantiate(&t), Ok(Ptr::Aux2(3)));
    assert_eq!(net.live_count(), 5);
    assert_eq!(net.target(Ptr::Aux1(3)), Some(Ptr::Aux2(4)));
    assert_eq!(net.target(Ptr::Aux2(3)), Some(Ptr::Root));
    assert_eq!(net.target(Ptr::Aux1(4)), Some(Ptr::Ref(4)));
    assert_eq!(net.target(Ptr::Aux2(4)), Some(Ptr::Aux1(3)));
    assert_eq!(net.acts, vec![(Ptr::Ref(5), Ptr::Dup(2, 4))]);
    assert_eq!(net.dref, 0);
}

#[test]
fn instantiate_copies_nothing_without_room() {
    let mut net = agents(4, 3);
    let t = Template {
        nodes: vec![
            Node { p1: Ptr::Era, p2: Ptr::Era, live: true },
            Node { p1: Ptr::Era, p2: Ptr::Era, live: true },
        ],
        root: Ptr::Con(0),
        acts: vec![(Ptr::Era, Ptr::Con(1))],
    };
    assert_eq!(net.instantiate(&t), Err(Error::OutOfMemory));
    assert_eq!(net.live_count(), 3);
    assert!(net.acts.is_empty());
}

#[test]
fn reference_is_expanded_when_it_meets_an_agent() {
    let mut net = agents(8, 1);
    net.link(Ptr::Aux1(0), Ptr::Aux2(0)).unwrap();
    let mut book = Book::new();
    book.insert(42, identity());
    assert_eq!(net.interact(&book, Ptr::Ref(42), Ptr::Con(0)), Ok(()));
    assert_eq!(net.dref, 1);
    assert_eq!(net.rwts, 1);
    assert_eq!(net.live_count(), 2);
    assert_eq!(net.acts, vec![(Ptr::Con(1), Ptr::Con(0))]);
    assert_eq!(net.interact(&book, Ptr::Con(0), Ptr::Ref(42)), Ok(()));
    assert_eq!(net.dref, 2);
    assert_eq!(net.rwts, 2);
    assert_eq!(net.acts[1], (Ptr::Con(2), Ptr::Con(0)));
}

#[test]
fn undefined_reference_is_reported() {
    let mut net = agents(8, 1);
    let book = Book::new();
    assert_eq!(
        net.interact(&book, Ptr::Ref(42), Ptr::Con(0)),
        Err(Error::UndefinedReference(42))
    );
    assert_eq!(net.deref(&book, 7), Err(Error::UndefinedReference(7)));
}

#[test]
fn counters_do_not_wrap() {
    let mut net = agents(8, 2);
    let mut book = Book::new();
    book.insert(42, identity());
    net.rwts = u64::MAX;
    assert_eq!(
        net.interact(&book, Ptr::Era, Ptr::Era),
        Err(Error::CounterOverflow)
    );
    assert_eq!(net.rwts, u64::MAX);
    net.rwts = 0;
    net.dref = u64::MAX;
    assert_eq!(
        net.interact(&book, Ptr::Ref(42), Ptr::Con(0)),
        Err(Error::CounterOverflow)
    );
    assert_eq!(net.dref, u64::MAX);
    net.acts.push((Ptr::Era, Ptr::Era));
    net.rwts = u64::MAX;
    assert_eq!(net.reduce(&book), Err(Error::CounterOverflow));
}
