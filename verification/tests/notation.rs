use inets::book::Book;
use inets::compile::{check_linear, compile, define, DIGIT_END, DIGIT_ONE, DIGIT_ZERO};
use inets::error::Error;
use inets::net::Node;
use inets::ptr::Ptr;
use inets::rules::{OP_ADD, OP_GT, OP_SUB};
use inets::syntax::{name_to_val, parse, val_to_name, Def, Term, MAX_DEPTH};

fn ctr(lab: u32, l: Term, r: Term) -> Term {
    Term::Ctr(lab, Box::new(l), Box::new(r))
}

fn node(p1: Ptr, p2: Ptr) -> Node {
    Node { p1, p2, live: true }
}

#[test]
fn names_are_numbers_in_base_64() {
    assert_eq!(name_to_val("."), Some(0));
    assert_eq!(name_to_val("0"), Some(1));
    assert_eq!(name_to_val("9"), Some(10));
    assert_eq!(name_to_val("A"), Some(11));
    assert_eq!(name_to_val("Z"), Some(36));
    assert_eq!(name_to_val("a"), Some(37));
    assert_eq!(name_to_val("z"), Some(62));
    assert_eq!(name_to_val("_"), Some(63));
    assert_eq!(name_to_val("c2"), Some(39 * 64 + 3));
    assert_eq!(name_to_val("Main"), Some(((23 * 64 + 37) * 64 + 45) * 64 + 50));
    assert_eq!(
        name_to_val("zzzzzzzzzz"),
        Some((0..10).fold(0u64, |v, _| v * 64 + 62))
    );
    assert_eq!(name_to_val("__________"), Some((1u64 << 60) - 1));
    assert_eq!(name_to_val("O"), Some(DIGIT_ZERO));
    assert_eq!(name_to_val("I"), Some(DIGIT_ONE));
    assert_eq!(name_to_val("E"), Some(DIGIT_END));
}

#[test]
fn bad_names_have_no_number() {
    assert_eq!(name_to_val(""), None);
    assert_eq!(name_to_val("a b"), None);
    assert_eq!(name_to_val("a-b"), None);
    assert_eq!(name_to_val("abcdefghijk"), None);
    assert_eq!(name_to_val("é"), None);
}

#[test]
fn parses_every_kind_of_term() {
    let def = parse("$ (0 * (3 @c2 {- +7 (0 x (0 -1 (0 26 x)))}))").unwrap();
    let x = name_to_val("x").unwrap();
    let c2 = name_to_val("c2").unwrap();
    let expected = ctr(
        0,
        Term::Era,
        ctr(
            3,
            Term::Ref(c2),
            Term::Opr(
                OP_SUB,
                Box::new(Term::Num(7)),
                Box::new(ctr(
                    0,
                    Term::Var(x),
                    ctr(0, Term::Num(u64::MAX), ctr(0, Term::Lit(26), Term::Var(x))),
                )),
            ),
        ),
    );
    assert_eq!(def, Def { root: expected, pairs: vec![] });
}

#[test]
fn parses_pairs() {
    let def = parse("\n  $ root\n  & @c2 ~ (0 @k2 root)\n  & {> a b}\n  ~ +1 ").unwrap();
    let v = |s: &str| name_to_val(s).unwrap();
    assert_eq!(def.root, Term::Var(v("root")));
    assert_eq!(def.pairs.len(), 2);
    assert_eq!(def.pairs[0].0, Term::Ref(v("c2")));
    assert_eq!(def.pairs[0].1, ctr(0, Term::Ref(v("k2")), Term::Var(v("root"))));
    assert_eq!(
        def.pairs[1].0,
        Term::Opr(OP_GT, Box::new(Term::Var(v("a"))), Box::new(Term::Var(v("b"))))
    );
    assert_eq!(def.pairs[1].1, Term::Num(1));
}

#[test]
fn numerals_and_literals() {
    assert_eq!(parse("$ +0").unwrap().root, Term::Num(0));
    assert_eq!(parse("$ -0").unwrap().root, Term::Num(0));
    assert_eq!(parse("$ -2").unwrap().root, Term::Num(u64::MAX - 1));
    assert_eq!(
        parse("$ +18446744073709551615").unwrap().root,
        Term::Num(u64::MAX)
    );
    assert_eq!(parse("$ 0").unwrap().root, Term::Lit(0));
    assert_eq!(
        parse("$ 18446744073709551615").unwrap().root,
        Term::Lit(u64::MAX)
    );
    assert_eq!(parse("$ 18446744073709551616"), Err(Error::Syntax(2)));
    assert_eq!(parse("$ +18446744073709551616"), Err(Error::Syntax(3)));
    assert_eq!(parse("$ (4294967295 * *)").unwrap().root, ctr(u32::MAX, Term::Era, Term::Era));
    assert_eq!(parse("$ (4294967296 * *)"), Err(Error::Syntax(3)));
}

#[test]
fn syntax_errors_give_the_place() {
    assert_eq!(parse(""), Err(Error::Syntax(0)));
    assert_eq!(parse("   "), Err(Error::Syntax(3)));
    assert_eq!(parse("(0 * *)"), Err(Error::Syntax(0)));
    assert_eq!(parse("$"), Err(Error::Syntax(1)));
    assert_eq!(parse("$ ("), Err(Error::Syntax(3)));
    assert_eq!(parse("$ (x * *)"), Err(Error::Syntax(3)));
    assert_eq!(parse("$ (0 *"), Err(Error::Syntax(6)));
    assert_eq!(parse("$ (0 * *"), Err(Error::Syntax(8)));
    assert_eq!(parse("$ (0 * * *)"), Err(Error::Syntax(9)));
    assert_eq!(parse("$ {? * *}"), Err(Error::Syntax(3)));
    assert_eq!(parse("$ {+ * *)"), Err(Error::Syntax(8)));
    assert_eq!(parse("$ @"), Err(Error::Syntax(3)));
    assert_eq!(parse("$ @ x"), Err(Error::Syntax(3)));
    assert_eq!(parse("$ @abcdefghijk"), Err(Error::Syntax(3)));
    assert_eq!(parse("$ abcdefghijk"), Err(Error::Syntax(2)));
    assert_eq!(parse("$ +"), Err(Error::Syntax(3)));
    assert_eq!(parse("$ - 1"), Err(Error::Syntax(3)));
    assert_eq!(parse("$ #"), Err(Error::Syntax(2)));
    assert_eq!(parse("$ * *"), Err(Error::Syntax(4)));
    assert_eq!(parse("$ * & *"), Err(Error::Syntax(7)));
    assert_eq!(parse("$ * & * ~"), Err(Error::Syntax(9)));
    assert_eq!(parse("$ * & * * "), Err(Error::Syntax(8)));
    assert_eq!(parse("$ x & x ~ *"), Err(Error::Syntax(5)));
    assert_eq!(parse("$ x & * ~ x"), Err(Error::Syntax(9)));
}

#[test]
fn nesting_is_followed_to_a_fixed_depth() {
    let deep = |n: usize| format!("$ {}*{}", "(0 * ".repeat(n), ")".repeat(n));
    assert!(parse(&deep(MAX_DEPTH)).is_ok());
    assert_eq!(
        parse(&deep(MAX_DEPTH + 1)),
        Err(Error::Syntax(2 + 5 * MAX_DEPTH))
    );
}

#[test]
fn a_variable_becomes_one_wire() {
    let t = compile(&parse("$ (0 x (2 y (0 y x)))").unwrap()).unwrap();
    assert_eq!(t.root, Ptr::Con(0));
    assert_eq!(
        t.nodes,
        vec![
            node(Ptr::Aux2(2), Ptr::Dup(2, 1)),
            node(Ptr::Aux1(2), Ptr::Con(2)),
            node(Ptr::Aux1(1), Ptr::Aux1(0)),
        ]
    );
    assert!(t.acts.is_empty());
}

#[test]
fn a_variable_at_the_root_is_wired_to_the_root() {
    let t = compile(&parse("$ root & @c2 ~ (0 @k2 root)").unwrap()).unwrap();
    let v = |s: &str| name_to_val(s).unwrap();
    assert_eq!(t.root, Ptr::Aux2(0));
    assert_eq!(t.nodes, vec![node(Ptr::Ref(v("k2")), Ptr::Root)]);
    assert_eq!(t.acts, vec![(Ptr::Ref(v("c2")), Ptr::Con(0))]);
}

#[test]
fn operators_and_numerals_compile() {
    let t = compile(&parse("$ ret & {+ -2 ret} ~ +1").unwrap()).unwrap();
    assert_eq!(t.root, Ptr::Aux2(0));
    assert_eq!(t.nodes, vec![node(Ptr::Num(u64::MAX - 1), Ptr::Root)]);
    assert_eq!(t.acts, vec![(Ptr::Opr(OP_ADD, 0), Ptr::Num(1))]);
}

#[test]
fn a_literal_becomes_a_chain_of_digits() {
    // 6 is 110 in binary: lowest digit first, O then I then I, then the end.
    let t = compile(&parse("$ (0 6 *)").unwrap()).unwrap();
    assert_eq!(t.root, Ptr::Con(0));
    assert_eq!(
        t.nodes,
        vec![
            node(Ptr::Aux2(1), Ptr::Era),
            node(Ptr::Aux2(2), Ptr::Aux1(0)),
            node(Ptr::Aux2(3), Ptr::Aux1(1)),
            node(Ptr::Ref(DIGIT_END), Ptr::Aux1(2)),
        ]
    );
    assert_eq!(
        t.acts,
        vec![
            (Ptr::Ref(DIGIT_ZERO), Ptr::Con(1)),
            (Ptr::Ref(DIGIT_ONE), Ptr::Con(2)),
            (Ptr::Ref(DIGIT_ONE), Ptr::Con(3)),
        ]
    );
    let zero = compile(&parse("$ 0").unwrap()).unwrap();
    assert_eq!(zero.root, Ptr::Ref(DIGIT_END));
    assert!(zero.nodes.is_empty());
    assert!(zero.acts.is_empty());
}

#[test]
fn a_literal_may_be_a_side_of_a_pair() {
    let t = compile(&parse("$ * & 1 ~ (0 * *)").unwrap()).unwrap();
    assert_eq!(
        t.nodes,
        vec![node(Ptr::Ref(DIGIT_END), Ptr::Con(1)), node(Ptr::Era, Ptr::Era)]
    );
    assert_eq!(t.acts, vec![(Ptr::Ref(DIGIT_ONE), Ptr::Con(0))]);
}

#[test]
fn a_variable_used_once_is_free() {
    let x = name_to_val("x").unwrap();
    let y = name_to_val("y").unwrap();
    assert_eq!(
        compile(&parse("$ (0 x *)").unwrap()).err(),
        Some(Error::FreeVariable(x))
    );
    assert_eq!(
        compile(&parse("$ (0 y (0 x y)) & @f ~ (0 * *)").unwrap()).err(),
        Some(Error::FreeVariable(x))
    );
    assert_eq!(
        compile(&parse("$ (0 y (0 x *))").unwrap()).err(),
        Some(Error::FreeVariable(y))
    );
    assert_eq!(compile(&parse("$ x").unwrap()).err(), Some(Error::FreeVariable(x)));
}

#[test]
fn a_variable_used_three_times_is_reused() {
    let x = name_to_val("x").unwrap();
    let y = name_to_val("y").unwrap();
    assert_eq!(
        compile(&parse("$ (0 x (0 x x))").unwrap()).err(),
        Some(Error::VariableReused(x))
    );
    assert_eq!(
        compile(&parse("$ (0 x (0 x (0 (0 x x) y)))").unwrap()).err(),
        Some(Error::VariableReused(x))
    );
    assert_eq!(
        compile(&parse("$ (0 y (0 x x)) & @f ~ (0 x (0 y (0 y y)))").unwrap()).err(),
        Some(Error::VariableReused(x))
    );
}

#[test]
fn check_linear_counts_occurrences() {
    assert_eq!(check_linear(&vec![]), Ok(()));
    assert_eq!(check_linear(&vec![1, 2, 2, 1]), Ok(()));
    assert_eq!(check_linear(&vec![1, 2, 1]), Err(Error::FreeVariable(2)));
    assert_eq!(check_linear(&vec![3, 1, 2, 1]), Err(Error::FreeVariable(3)));
    assert_eq!(check_linear(&vec![3, 1, 1, 1]), Err(Error::VariableReused(1)));
    assert_eq!(
        check_linear(&vec![2, 2, 1, 1, 1, 2]),
        Err(Error::VariableReused(1))
    );
    assert_eq!(check_linear(&vec![1, 1, 1, 1]), Err(Error::VariableReused(1)));
}

#[test]
fn a_bare_variable_is_no_side_of_a_pair() {
    let x = name_to_val("x").unwrap();
    let def = Def {
        root: Term::Var(x),
        pairs: vec![(Term::Var(x), Term::Era)],
    };
    assert_eq!(compile(&def).err(), Some(Error::Syntax(0)));
    let def = Def {
        root: Term::Var(x),
        pairs: vec![(Term::Era, Term::Era), (Term::Era, Term::Var(x))],
    };
    assert_eq!(compile(&def).err(), Some(Error::Syntax(0)));
}

#[test]
fn define_stores_and_overwrites() {
    let mut book = Book::new();
    let id = name_to_val("id").unwrap();
    assert!(book.lookup(id).is_none());
    assert_eq!(define(&mut book, "id", "$ (0 x x)"), Ok(id));
    assert_eq!(book.lookup(id).unwrap().root, Ptr::Con(0));
    assert_eq!(book.lookup(id).unwrap().nodes.len(), 1);
    assert_eq!(define(&mut book, "id", "$ (3 * (0 x x))"), Ok(id));
    assert_eq!(book.lookup(id).unwrap().root, Ptr::Dup(3, 0));
    assert_eq!(book.lookup(id).unwrap().nodes.len(), 2);
    assert_eq!(book.defs.len(), 1);
}

#[test]
fn define_leaves_the_book_alone_on_error() {
    let mut book = Book::new();
    let x = name_to_val("x").unwrap();
    define(&mut book, "id", "$ (0 x x)").unwrap();
    assert_eq!(define(&mut book, "id", "$ (0 x *)"), Err(Error::FreeVariable(x)));
    assert_eq!(define(&mut book, "id", "$ (0 x"), Err(Error::Syntax(6)));
    assert_eq!(define(&mut book, "not a name", "$ *"), Err(Error::Syntax(0)));
    assert_eq!(book.defs.len(), 1);
    assert_eq!(book.lookup(name_to_val("id").unwrap()).unwrap().nodes.len(), 1);
}

#[test]
fn numbers_are_written_back_as_names() {
    assert_eq!(val_to_name(0), b".".to_vec());
    assert_eq!(val_to_name(1), b"0".to_vec());
    assert_eq!(val_to_name(63), b"_".to_vec());
    assert_eq!(val_to_name(64), b"0.".to_vec());
    assert_eq!(val_to_name(39 * 64 + 3), b"c2".to_vec());
    assert_eq!(val_to_name(u64::MAX), b"E__________".to_vec());
    for name in ["Main", "c22", "a.b_C9", "zzzzzzzzzz", "x"] {
        assert_eq!(val_to_name(name_to_val(name).unwrap()), name.as_bytes().to_vec());
    }
}
