use inets::net::Net;
use inets::ptr::Ptr;
use inets::render::{
    _left, _right, is_bool_false, left, net_bin_tree_to_image, net_list_to_image, right,
    IMAGE_BYTES, IMAGE_SIZE,
};

fn agent(net: &mut Net, p1: Ptr, p2: Ptr) -> Ptr {
    let a = net.allocate().unwrap();
    net.fill(a, p1, p2).unwrap();
    Ptr::Con(a)
}

/// A leaf that holds true and one that holds false.
fn booleans(net: &mut Net) -> (Ptr, Ptr) {
    let e = agent(net, Ptr::Num(1), Ptr::Era);
    let d = agent(net, e, Ptr::Era);
    let c = agent(net, d, Ptr::Era);
    let yes = agent(net, Ptr::Era, c);
    let e = agent(net, Ptr::Era, Ptr::Era);
    let d = agent(net, e, Ptr::Era);
    let c = agent(net, d, Ptr::Era);
    let no = agent(net, Ptr::Era, c);
    (yes, no)
}

fn tree(net: &mut Net, depth: u32, index: u32, yes: Ptr, no: Ptr) -> Ptr {
    if depth == 16 {
        return if index % 5 == 0 { yes } else { no };
    }
    let l = tree(net, depth + 1, 2 * index, yes, no);
    let r = tree(net, depth + 1, 2 * index + 1, yes, no);
    let b = agent(net, r, Ptr::Era);
    let a = agent(net, l, b);
    agent(net, a, Ptr::Era)
}

#[test]
fn steps_follow_the_first_and_second_ports() {
    let mut net = Net::new(8);
    let x = agent(&mut net, Ptr::Num(1), Ptr::Num(2));
    let y = agent(&mut net, x, Ptr::Num(3));
    assert_eq!(_left(&mut net, y), x);
    assert_eq!(_right(&mut net, y), Ptr::Num(3));
    assert_eq!(_left(&mut net, x), Ptr::Num(1));
    // The payload is an address whatever the pointer's kind.
    assert_eq!(_left(&mut net, Ptr::Num(1)), x);
    assert_eq!(_right(&mut net, Ptr::Aux1(0)), Ptr::Num(2));
}

#[test]
fn left_and_right_subtrees() {
    let mut net = Net::new(8);
    let l = agent(&mut net, Ptr::Num(10), Ptr::Era);
    let r = agent(&mut net, Ptr::Num(20), Ptr::Era);
    let b = agent(&mut net, r, Ptr::Era);
    let a = agent(&mut net, l, b);
    let top = agent(&mut net, a, Ptr::Era);
    assert_eq!(left(&mut net, top), l);
    assert_eq!(right(&mut net, top), r);
    assert_eq!(net.live_count(), 5);
}

#[test]
fn booleans_at_the_leaves() {
    let mut net = Net::new(8);
    let (yes, no) = booleans(&mut net);
    assert!(!is_bool_false(&mut net, yes));
    assert!(is_bool_false(&mut net, no));
}

#[test]
fn a_list_of_rows_is_drawn_row_by_row() {
    let mut net = Net::new(IMAGE_SIZE * IMAGE_SIZE + IMAGE_SIZE + 2);
    let on = agent(&mut net, Ptr::Num(1), Ptr::Era);
    let off = agent(&mut net, Ptr::Era, Ptr::Era);
    let lit = |y: usize, x: usize| (x + 2 * y) % 3 == 0;
    let mut rows = Ptr::Era;
    for y in (0..IMAGE_SIZE).rev() {
        let mut cells = Ptr::Era;
        for x in (0..IMAGE_SIZE).rev() {
            cells = agent(&mut net, if lit(y, x) { on } else { off }, cells);
        }
        rows = agent(&mut net, cells, rows);
    }
    net.root = rows;
    let live = net.live_count();
    let mut image = [7u8; IMAGE_BYTES];
    net_list_to_image(&mut net, &mut image);
    for y in 0..IMAGE_SIZE {
        for x in 0..IMAGE_SIZE {
            let want = if lit(y, x) { 0xff } else { 0x00 };
            for k in 0..3 {
                assert_eq!(image[(y * IMAGE_SIZE + x) * 3 + k], want);
            }
        }
    }
    assert_eq!(net.live_count(), live);
    assert_eq!(net.root, rows);
}

#[test]
fn a_tree_is_drawn_leaf_by_leaf() {
    let mut net = Net::new(3 * 65535 + 8);
    let (yes, no) = booleans(&mut net);
    let root = tree(&mut net, 0, 0, yes, no);
    net.root = root;
    let mut image = [7u8; IMAGE_BYTES];
    net_bin_tree_to_image(&mut net, &mut image);
    for i in 0..IMAGE_SIZE * IMAGE_SIZE {
        let want = if i % 5 == 0 { 0xff } else { 0x00 };
        for k in 0..3 {
            assert_eq!(image[3 * i + k], want);
        }
    }
    assert_eq!(net.live_count(), 3 * 65535 + 8);
    assert_eq!(net.root, root);
}
