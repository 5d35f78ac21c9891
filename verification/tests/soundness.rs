use inets::book::{Book, Template};
use inets::compile::{compile, define};
use inets::net::Net;
use inets::ptr::Ptr;
use inets::syntax::{name_to_val, parse};

/// Every place of the net that holds a pointer: ports and sides of pending pairs.
fn holders(net: &Net) -> Vec<Ptr> {
    let mut held = vec![net.root];
    for a in 0..net.capacity() as u64 {
        if net.is_live(a) {
            held.push(net.target(Ptr::Aux1(a)).unwrap());
            held.push(net.target(Ptr::Aux2(a)).unwrap());
        }
    }
    for (a, b) in &net.acts {
        assert!(!a.is_var());
        assert!(!b.is_var());
        held.push(*a);
        held.push(*b);
    }
    held
}

/// Checks that every port that holds a port is held by it in turn, and that
/// every agent that is pointed to is live and pointed to once.
fn assert_sound(net: &Net) {
    let mut ports = vec![Ptr::Root];
    for a in 0..net.capacity() as u64 {
        if net.is_live(a) {
            ports.push(Ptr::Aux1(a));
            ports.push(Ptr::Aux2(a));
        }
    }
    for p in &ports {
        let q = net.target(*p).unwrap();
        if q.is_var() {
            assert_ne!(q, *p);
            assert!(net.is_port(q));
            assert_eq!(net.target(q), Some(*p));
        }
    }
    let mut owned = vec![false; net.capacity()];
    for q in holders(net) {
        if q.is_ctr() {
            assert!(net.is_live(q.val()));
            assert!(!owned[q.val() as usize]);
            owned[q.val() as usize] = true;
        }
    }
}

fn assert_template_sound(t: &Template) {
    let n = t.nodes.len() as u64;
    let get = |p: Ptr| match p {
        Ptr::Aux1(i) => t.nodes[i as usize].p1,
        Ptr::Aux2(i) => t.nodes[i as usize].p2,
        _ => t.root,
    };
    let mut ports = vec![Ptr::Root];
    for i in 0..n {
        ports.push(Ptr::Aux1(i));
        ports.push(Ptr::Aux2(i));
    }
    let mut owned = vec![false; n as usize];
    let mut own = |q: Ptr| {
        if q.is_ctr() {
            assert!(q.val() < n);
            assert!(!owned[q.val() as usize]);
            owned[q.val() as usize] = true;
        }
    };
    for p in &ports {
        let q = get(*p);
        if q.is_var() {
            assert_ne!(q, *p);
            assert!(q == Ptr::Root || q.val() < n);
            assert_eq!(get(q), *p);
        }
        own(q);
    }
    for (a, b) in &t.acts {
        assert!(!a.is_var());
        assert!(!b.is_var());
        own(*a);
        own(*b);
    }
}

fn book() -> Book {
    let mut book = Book::new();
    define(&mut book, "c2", "$ (0 (1 (0 b a) (0 a R)) (0 b R))").unwrap();
    define(&mut book, "c3", "$ (0 (1 (1 (0 c b) (0 b a)) (0 a R)) (0 c R))").unwrap();
    define(&mut book, "k2", "$ (0 (2 (0 b a) (0 a R)) (0 b R))").unwrap();
    define(&mut book, "id", "$ (0 x x)").unwrap();
    define(&mut book, "O", "$ (0 xs (0 (0 xs r) (0 * (0 * r))))").unwrap();
    define(&mut book, "I", "$ (0 xs (0 * (0 (0 xs r) (0 * r))))").unwrap();
    define(&mut book, "E", "$ (0 * (0 * (0 e e)))").unwrap();
    define(&mut book, "ex0", "$ root & @c3 ~ (0 @k2 root)").unwrap();
    define(&mut book, "ex1", "$ (0 r 5) & {+ a r} ~ +1 & {* +3 a} ~ +4 & @id ~ (0 * *)").unwrap();
    define(&mut book, "ex2", "$ (0 a a) & (0 x x) ~ (0 y y) & (3 z z) ~ (3 * @id) & * ~ @c2").unwrap();
    book
}

#[test]
fn compiled_templates_are_sound() {
    let sources = [
        "$ *",
        "$ (0 x x)",
        "$ root & @c2 ~ (0 @k2 root)",
        "$ (0 (1 (0 b a) (0 a R)) (0 b R))",
        "$ (0 r 5) & {+ a r} ~ +1 & {* +3 a} ~ +4 & @id ~ (0 * *)",
        "$ (0 a a) & (0 x x) ~ (0 y y) & (3 z z) ~ (3 * @id) & * ~ @c2",
        "$ 7 & 3 ~ 4 & 1 ~ (0 x (2 x 6))",
    ];
    for source in sources {
        assert_template_sound(&compile(&parse(source).unwrap()).unwrap());
    }
}

#[test]
fn every_rewrite_keeps_the_net_sound() {
    let book = book();
    for entry in ["ex0", "ex1", "ex2", "c2", "E"] {
        let mut net = Net::new(256);
        assert_sound(&net);
        net.boot(name_to_val(entry).unwrap());
        assert_sound(&net);
        loop {
            let before = net.dref;
            net.expand(&book, Ptr::Root).unwrap();
            assert_sound(&net);
            if net.acts.is_empty() && net.dref == before {
                break;
            }
            while let Some((a, b)) = net.acts.pop() {
                net.interact(&book, a, b).unwrap();
                assert_sound(&net);
            }
        }
        let rewrites = net.rwts;
        net.normal(&book).unwrap();
        assert_eq!(net.rwts, rewrites);
        assert_sound(&net);
    }
}

#[test]
fn stepwise_reduction_agrees_with_the_drivers() {
    let book = book();
    let mut by_hand = Net::new(256);
    by_hand.boot(name_to_val("ex0").unwrap());
    loop {
        let before = by_hand.dref;
        by_hand.expand(&book, Ptr::Root).unwrap();
        if by_hand.acts.is_empty() && by_hand.dref == before {
            break;
        }
        while let Some((a, b)) = by_hand.acts.pop() {
            by_hand.interact(&book, a, b).unwrap();
        }
    }
    let mut driven = Net::new(256);
    driven.boot(name_to_val("ex0").unwrap());
    driven.normal(&book).unwrap();
    assert_eq!(driven.rwts, by_hand.rwts);
    assert_eq!(driven.dref, by_hand.dref);
    assert_eq!(driven.root, by_hand.root);
    assert_eq!(driven.nodes, by_hand.nodes);
    assert_eq!(driven.free, by_hand.free);
}
