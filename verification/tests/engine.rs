use inets::book::Book;
use inets::compile::define;
use inets::error::Error;
use inets::net::Net;
use inets::ptr::Ptr;
use inets::syntax::name_to_val;

fn name(s: &str) -> u64 {
    name_to_val(s).unwrap()
}

fn numerals(book: &mut Book) {
    define(book, "c1", "$ (0 (0 a R) (0 a R))").unwrap();
    define(book, "c2", "$ (0 (1 (0 b a) (0 a R)) (0 b R))").unwrap();
    define(book, "c3", "$ (0 (1 (1 (0 c b) (0 b a)) (0 a R)) (0 c R))").unwrap();
    define(book, "c4", "$ (0 (1 (1 (1 (0 d c) (0 c b)) (0 b a)) (0 a R)) (0 d R))").unwrap();
    define(book, "c8", "$ (0 (1 (1 (1 (1 (1 (1 (1 (0 h g) (0 g f)) (0 f e)) (0 e d)) (0 d c)) (0 c b)) (0 b a)) (0 a R)) (0 h R))").unwrap();
    define(book, "c22", "$ (0 (1 (1 (1 (1 (1 (1 (1 (1 (1 (1 (1 (1 (1 (1 (1 (1 (1 (1 (1 (1 (1 (0 v u) (0 u t)) (0 t s)) (0 s r)) (0 r q)) (0 q p)) (0 p o)) (0 o n)) (0 n m)) (0 m l)) (0 l k)) (0 k j)) (0 j i)) (0 i h)) (0 h g)) (0 g f)) (0 f e)) (0 e d)) (0 d c)) (0 c b)) (0 b a)) (0 a R)) (0 v R))").unwrap();
    define(book, "k2", "$ (0 (2 (0 b a) (0 a R)) (0 b R))").unwrap();
    define(book, "mul", "$ (0 (0 a b) (0 (0 c a) (0 c b)))").unwrap();
    define(book, "id", "$ (0 x x)").unwrap();
}

fn bitstrings(book: &mut Book) {
    define(book, "O", "$ (0 xs (0 (0 xs r) (0 * (0 * r))))").unwrap();
    define(book, "I", "$ (0 xs (0 * (0 (0 xs r) (0 * r))))").unwrap();
    define(book, "E", "$ (0 * (0 * (0 e e)))").unwrap();
    define(book, "decO", "
        $ (0 p idecp)
        & @I   ~ (0 decp idecp)
        & @dec ~ (0 p decp)
    ").unwrap();
    define(book, "decI", "
        $ (0 p lowp)
        & @low ~ (0 p lowp)
    ").unwrap();
    define(book, "dec", "
        $ (0 (0 @decO (0 @decI (0 @E ret))) ret)
    ").unwrap();
    define(book, "lowO", "
        $ (0 p oop)
        & @O ~ (0 p op)
        & @O ~ (0 op oop)
    ").unwrap();
    define(book, "lowI", "
        $ (0 p oip)
        & @I ~ (0 p ip)
        & @O ~ (0 ip oip)
    ").unwrap();
    define(book, "low", "
        $ (0 (0 @lowO (0 @lowI (0 @E ret))) ret)
    ").unwrap();
    define(book, "runO", "
        $ (0 p ret)
        & @run ~ (0 decop ret)
        & @dec ~ (0 op decop)
        & @O   ~ (0 p op)
    ").unwrap();
    define(book, "runI", "
        $ (0 p ret)
        & @run ~ (0 decip ret)
        & @dec ~ (0 ip decip)
        & @I   ~ (0 p ip)
    ").unwrap();
    define(book, "run", "
        $ (0 (0 @runO (0 @runI (0 @E ret))) ret)
    ").unwrap();
}

fn show(net: &Net, p: Ptr, wires: &mut Vec<(Ptr, Ptr)>, out: &mut String) {
    match p {
        Ptr::Era => out.push('*'),
        Ptr::Ref(n) => out.push_str(&format!("@{}", n)),
        Ptr::Num(v) => out.push_str(&format!("#{}", v)),
        Ptr::Con(a) | Ptr::Dup(_, a) => {
            out.push_str(&format!("({} ", p.lab()));
            show_port(net, Ptr::Aux1(a), wires, out);
            out.push(' ');
            show_port(net, Ptr::Aux2(a), wires, out);
            out.push(')');
        }
        Ptr::Opr(op, a) => {
            out.push_str(&format!("{{{} ", op));
            show_port(net, Ptr::Aux1(a), wires, out);
            out.push(' ');
            show_port(net, Ptr::Aux2(a), wires, out);
            out.push('}');
        }
        _ => out.push('?'),
    }
}

/// Writes what the port `here` holds; a wire is named by the order in which
/// the walk first meets one of its ends.
fn show_port(net: &Net, here: Ptr, wires: &mut Vec<(Ptr, Ptr)>, out: &mut String) {
    let held = net.target(here).unwrap();
    if held.is_var() {
        assert_eq!(net.target(held), Some(here));
        match wires.iter().position(|w| w.0 == here || w.1 == here) {
            Some(i) => out.push_str(&format!("x{}", i)),
            None => {
                wires.push((here, held));
                out.push_str(&format!("x{}", wires.len() - 1));
            }
        }
    } else {
        show(net, held, wires, out);
    }
}

fn shape(net: &Net) -> String {
    let mut out = String::new();
    let mut wires = Vec::new();
    show_port(net, Ptr::Root, &mut wires, &mut out);
    out
}

fn run(book: &Book, entry: &str, capacity: usize) -> Net {
    let mut net = Net::new(capacity);
    net.boot(name(entry));
    net.expand(book, Ptr::Root).unwrap();
    net.reduce(book).unwrap();
    net.normal(book).unwrap();
    net
}

#[test]
fn boot_points_the_root_at_the_entry() {
    let mut net = Net::new(4);
    net.rwts = 5;
    net.dref = 6;
    net.boot(77);
    assert_eq!(net.root, Ptr::Ref(77));
    assert_eq!(net.rwts, 0);
    assert_eq!(net.dref, 0);
    assert_eq!(net.live_count(), 0);
}

#[test]
fn expand_resolves_the_root_reference() {
    let mut book = Book::new();
    numerals(&mut book);
    define(&mut book, "ex0", "$ root & @c2 ~ (0 @k2 root)").unwrap();
    let mut net = Net::new(64);
    net.boot(name("ex0"));
    assert_eq!(net.expand(&book, Ptr::Root), Ok(()));
    assert_eq!(net.dref, 1);
    assert_eq!(net.rwts, 0);
    assert_eq!(net.root, Ptr::Aux2(0));
    assert_eq!(net.target(Ptr::Aux2(0)), Some(Ptr::Root));
    assert_eq!(net.target(Ptr::Aux1(0)), Some(Ptr::Ref(name("k2"))));
    assert_eq!(net.acts, vec![(Ptr::Ref(name("c2")), Ptr::Con(0))]);
    assert_eq!(net.live_count(), 1);
}

#[test]
fn expand_walks_below_agents() {
    let mut book = Book::new();
    numerals(&mut book);
    define(&mut book, "two", "$ (0 @id (2 @id *))").unwrap();
    let mut net = Net::new(64);
    net.boot(name("two"));
    assert_eq!(net.expand(&book, Ptr::Root), Ok(()));
    assert_eq!(net.dref, 1);
    assert_eq!(shape(&net), format!("(0 @{} (2 @{} *))", name("id"), name("id")));
    assert_eq!(net.expand(&book, Ptr::Root), Ok(()));
    assert_eq!(net.dref, 3);
    assert_eq!(shape(&net), "(0 (0 x0 x0) (2 (0 x1 x1) *))");
    assert_eq!(net.expand(&book, Ptr::Root), Ok(()));
    assert_eq!(net.dref, 3);
}

#[test]
fn expand_reports_a_cycle() {
    let mut net = Net::new(2);
    let a = net.allocate().unwrap();
    let b = net.allocate().unwrap();
    net.fill(a, Ptr::Con(b), Ptr::Era).unwrap();
    net.fill(b, Ptr::Con(a), Ptr::Era).unwrap();
    net.root = Ptr::Con(a);
    let book = Book::new();
    assert_eq!(net.expand(&book, Ptr::Root), Err(Error::Cyclic));
}

#[test]
fn expand_reports_an_undefined_reference() {
    let book = Book::new();
    let mut net = Net::new(8);
    net.boot(5);
    assert_eq!(net.expand(&book, Ptr::Root), Err(Error::UndefinedReference(5)));
    assert_eq!(net.normal(&book), Err(Error::UndefinedReference(5)));
}

#[test]
fn reduce_runs_out_of_memory() {
    let mut book = Book::new();
    numerals(&mut book);
    define(&mut book, "ex0", "$ root & @c2 ~ (0 @k2 root)").unwrap();
    let mut net = Net::new(8);
    net.boot(name("ex0"));
    net.expand(&book, Ptr::Root).unwrap();
    assert_eq!(net.reduce(&book), Err(Error::OutOfMemory));
}

#[test]
fn identity_applied_to_a_numeral_is_the_numeral() {
    let mut book = Book::new();
    numerals(&mut book);
    define(&mut book, "app", "$ root & @id ~ (0 @k2 root)").unwrap();
    let applied = run(&book, "app", 256);
    let plain = run(&book, "k2", 256);
    assert_eq!(shape(&applied), shape(&plain));
    assert_eq!(shape(&plain), "(0 (2 (0 x0 x1) (0 x1 x2)) (0 x0 x2))");
    assert_eq!(plain.rwts, 0);
    assert_eq!(plain.dref, 1);
    // One rewrite expands `id`, one annihilates it with the application.
    assert_eq!(applied.rwts, 2);
    assert_eq!(applied.dref, 3);
    assert_eq!(applied.live_count(), 5);
}

#[test]
fn one_times_k_is_k() {
    let mut book = Book::new();
    numerals(&mut book);
    define(&mut book, "app", "$ root & @mul ~ (0 @c1 (0 @k2 root))").unwrap();
    define(&mut book, "k2e", "$ (0 (2 (0 b a) (0 a R)) (0 b R))").unwrap();
    let product = run(&book, "app", 256);
    let plain = run(&book, "k2e", 256);
    assert_eq!(shape(&product), shape(&plain));
}

#[test]
fn church_two_applied_to_k2() {
    let mut book = Book::new();
    numerals(&mut book);
    define(&mut book, "ex0", "$ root & @c2 ~ (0 @k2 root)").unwrap();
    // k2 applied twice, written out with its sharing.
    define(&mut book, "k2k2", "$ (0 (2 (0 (2 x a) b) (0 b (2 a r))) (0 x r))").unwrap();
    let reduced = run(&book, "ex0", 256);
    let direct = run(&book, "k2k2", 256);
    assert_eq!(shape(&reduced), shape(&direct));
    assert_eq!(shape(&reduced), "(0 (2 (0 (2 x0 x1) x2) (0 x2 (2 x1 x3))) (0 x0 x3))");
    assert_eq!(reduced.live_count(), 7);
    assert_eq!(reduced.dref, 3);
    assert!(reduced.acts.is_empty());
}

#[test]
fn normal_is_idempotent() {
    let mut book = Book::new();
    numerals(&mut book);
    define(&mut book, "ex0", "$ root & @c2 ~ (0 @k2 root)").unwrap();
    let mut net = run(&book, "ex0", 256);
    let (rwts, dref, live, form) = (net.rwts, net.dref, net.live_count(), shape(&net));
    assert!(rwts > 0);
    assert_eq!(net.normal(&book), Ok(()));
    assert_eq!(net.rwts, rwts);
    assert_eq!(net.dref, dref);
    assert_eq!(net.live_count(), live);
    assert_eq!(shape(&net), form);
}

#[test]
fn normal_expands_what_reduction_uncovers() {
    let mut book = Book::new();
    numerals(&mut book);
    define(&mut book, "lazy", "$ (0 @inner *)").unwrap();
    define(&mut book, "inner", "$ r & @id ~ (0 @id r)").unwrap();
    let mut net = Net::new(64);
    net.boot(name("lazy"));
    assert_eq!(net.normal(&book), Ok(()));
    assert_eq!(shape(&net), "(0 (0 x0 x0) *)");
    assert_eq!(net.dref, 4);
    assert_eq!(net.rwts, 2);
}

#[test]
fn pre_instantiated_definition_has_the_same_normal_form() {
    let mut book = Book::new();
    numerals(&mut book);
    define(&mut book, "app", "$ root & @id ~ (0 @k2 root)").unwrap();
    // By reference: the root refers to the definition.
    let by_name = run(&book, "app", 256);
    // By hand: the definition is copied in before anything runs.
    let mut by_hand = Net::new(256);
    let root = by_hand.instantiate(book.lookup(name("app")).unwrap()).unwrap();
    by_hand.link(Ptr::Root, root).unwrap();
    by_hand.reduce(&book).unwrap();
    by_hand.normal(&book).unwrap();
    assert_eq!(shape(&by_name), shape(&by_hand));
    assert_eq!(by_name.rwts, by_hand.rwts);
    assert_eq!(by_name.dref, 3);
    assert_eq!(by_hand.dref, 2);
}

#[test]
fn decrement_chain_reaches_zero() {
    let mut book = Book::new();
    numerals(&mut book);
    bitstrings(&mut book);
    define(&mut book, "ex2", "
        $ main
        & @c8 ~ (0 @I (0 @E nie))
        & @run ~ (0 nie main)
    ").unwrap();
    let net = run(&book, "ex2", 1 << 14);
    let zero = run(&book, "E", 64);
    assert_eq!(shape(&net), shape(&zero));
    assert_eq!(shape(&net), "(0 * (0 * (0 x0 x0)))");
    assert_eq!(net.live_count(), 3);
}

#[test]
fn long_decrement_chain_reaches_zero() {
    let mut book = Book::new();
    numerals(&mut book);
    bitstrings(&mut book);
    define(&mut book, "c14", "$ (0 (1 (1 (1 (1 (1 (1 (1 (1 (1 (1 (1 (1 (1 (0 n m) (0 m l)) (0 l k)) (0 k j)) (0 j i)) (0 i h)) (0 h g)) (0 g f)) (0 f e)) (0 e d)) (0 d c)) (0 c b)) (0 b a)) (0 a R)) (0 n R))").unwrap();
    define(&mut book, "ex2", "
        $ main
        & @c14 ~ (0 @I (0 @E nie))
        & @run ~ (0 nie main)
    ").unwrap();
    let net = run(&book, "ex2", 1 << 14);
    assert_eq!(shape(&net), "(0 * (0 * (0 x0 x0)))");
    assert_eq!(net.live_count(), 3);
}

#[test]
fn decrement_chain_over_c22_reaches_zero() {
    let mut book = Book::new();
    numerals(&mut book);
    bitstrings(&mut book);
    define(&mut book, "ex2", "
        $ main
        & @c22 ~ (0 @I (0 @E nie))
        & @run ~ (0 nie main)
    ").unwrap();
    let net = run(&book, "ex2", 1 << 14);
    assert_eq!(shape(&net), "(0 * (0 * (0 x0 x0)))");
    assert_eq!(net.live_count(), 3);
    assert!(net.acts.is_empty());
}

#[test]
fn eraser_discards_a_whole_subgraph() {
    let mut book = Book::new();
    numerals(&mut book);
    define(&mut book, "ex", "$ * & * ~ (0 +5 @c2)").unwrap();
    let net = run(&book, "ex", 64);
    assert_eq!(net.root, Ptr::Era);
    assert_eq!(net.live_count(), 0);
    assert!(net.acts.is_empty());
    // The reference met the eraser and was never expanded.
    assert_eq!(net.dref, 1);
    assert_eq!(net.rwts, 3);
    for a in 0..64 {
        assert!(!net.is_live(a));
    }
}

#[test]
fn eraser_cascades_through_nested_agents() {
    let mut book = Book::new();
    define(&mut book, "ex", "$ r & * ~ (0 (0 +1 (2 @zz r)) (3 +2 *))").unwrap();
    let net = run(&book, "ex", 64);
    assert_eq!(net.root, Ptr::Era);
    assert_eq!(net.live_count(), 0);
    assert_eq!(net.dref, 1);
    // Four agents with ports are erased, and four pairs of agents without
    // ports vanish.
    assert_eq!(net.rwts, 4 + 4);
}

#[test]
fn native_arithmetic() {
    let mut book = Book::new();
    define(&mut book, "ex4", "
        $ ret
        & {+ -2 ret}
        ~ +1
    ").unwrap();
    let net = run(&book, "ex4", 16);
    assert_eq!(net.root, Ptr::Num(u64::MAX));
    assert_eq!(net.rwts, 1);
    assert_eq!(net.live_count(), 0);
    define(&mut book, "sub", "$ r & {- a r} ~ +50 & {* +4 a} ~ +2").unwrap();
    let net = run(&book, "sub", 16);
    assert_eq!(net.root, Ptr::Num(42));
    assert_eq!(net.live_count(), 0);
}

#[test]
fn a_literal_unfolds_into_digits() {
    let mut book = Book::new();
    bitstrings(&mut book);
    define(&mut book, "two", "$ 2").unwrap();
    define(&mut book, "same", "$ r & @O ~ (0 x r) & @I ~ (0 @E x)").unwrap();
    let lit = run(&book, "two", 256);
    let same = run(&book, "same", 256);
    assert_eq!(shape(&lit), shape(&same));
    assert_eq!(
        shape(&lit),
        "(0 (0 (0 * (0 (0 (0 * (0 * (0 x0 x0))) x1) (0 * x1))) x2) (0 * (0 * x2)))"
    );
}
