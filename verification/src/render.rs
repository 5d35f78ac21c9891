//! Reading a finished net as a picture.
//!
//! The functions here only follow pointers. They read the agent that a
//! pointer addresses, whatever the pointer's kind, so each asks that the
//! addresses it visits lie inside the arena.

use vstd::prelude::*;
use crate::net::{Net, NetState};
use crate::ptr::Ptr;

verus! {

/// Width and height of the picture, in pixels.
pub const IMAGE_SIZE: usize = 256;

/// Bytes of the picture: three per pixel.
pub const IMAGE_BYTES: usize = 196608;

/// Depth of the binary tree that holds one leaf per pixel.
pub const DEPTH: u16 = 16;

/// Whether the agent that `node` addresses has a slot in the arena.
pub open spec fn addressed(s: NetState, node: Ptr) -> bool {
    node.val() < s.nodes.len()
}

/// What auxiliary port 1 of the agent behind `node` holds.
pub open spec fn first(s: NetState, node: Ptr) -> Ptr {
    s.nodes[node.val() as int].p1
}

/// What auxiliary port 2 of the agent behind `node` holds.
pub open spec fn second(s: NetState, node: Ptr) -> Ptr {
    s.nodes[node.val() as int].p2
}

/// The left subtree of the tree node at `node`.
pub open spec fn left_of(s: NetState, node: Ptr) -> Ptr {
    first(s, first(s, node))
}

/// Whether `left` can read what it needs.
pub open spec fn left_readable(s: NetState, node: Ptr) -> bool {
    addressed(s, node) && addressed(s, first(s, node))
}

/// The right subtree of the tree node at `node`.
pub open spec fn right_of(s: NetState, node: Ptr) -> Ptr {
    first(s, second(s, first(s, node)))
}

/// Whether `right` can read what it needs.
pub open spec fn right_readable(s: NetState, node: Ptr) -> bool {
    &&& addressed(s, node)
    &&& addressed(s, first(s, node))
    &&& addressed(s, second(s, first(s, node)))
}

/// Whether the boolean stored at the leaf `node` is false.
pub open spec fn leaf_is_false(s: NetState, node: Ptr) -> bool {
    first(s, first(s, first(s, second(s, node)))) == Ptr::Era
}

/// Whether `is_bool_false` can read what it needs.
pub open spec fn leaf_readable(s: NetState, node: Ptr) -> bool {
    &&& addressed(s, node)
    &&& addressed(s, second(s, node))
    &&& addressed(s, first(s, second(s, node)))
    &&& addressed(s, first(s, first(s, second(s, node))))
}

pub fn _left(net: &mut Net, node: Ptr) -> (p: Ptr)
    requires
        addressed(old(net)@, node),
    ensures
        *final(net) == *old(net),
        p == first(old(net)@, node),
{
    net.target(Ptr::Aux1(node.val())).unwrap()
}

pub fn _right(net: &mut Net, node: Ptr) -> (p: Ptr)
    requires
        addressed(old(net)@, node),
    ensures
        *final(net) == *old(net),
        p == second(old(net)@, node),
{
    net.target(Ptr::Aux2(node.val())).unwrap()
}

/// Steps from a tree node to its left subtree.
pub fn left(net: &mut Net, node: Ptr) -> (p: Ptr)
    requires
        left_readable(old(net)@, node),
    ensures
        *final(net) == *old(net),
        p == left_of(old(net)@, node),
{
    let x = node;
    let x = _left(net, x);
    let x = _left(net, x);
    x
}

/// Steps from a tree node to its right subtree.
pub fn right(net: &mut Net, node: Ptr) -> (p: Ptr)
    requires
        right_readable(old(net)@, node),
    ensures
        *final(net) == *old(net),
        p == right_of(old(net)@, node),
{
    let x = node;
    let x = _left(net, x);
    let x = _right(net, x);
    let x = _left(net, x);
    x
}

/// Whether the leaf at `node` stores the boolean false.
pub fn is_bool_false(net: &mut Net, node: Ptr) -> (b: bool)
    requires
        leaf_readable(old(net)@, node),
    ensures
        *final(net) == *old(net),
        b == leaf_is_false(old(net)@, node),
{
    let x = _right(net, node);
    let x = _left(net, x);
    let x = _left(net, x);
    _left(net, x).is_era()
}

/// The list cell reached from `node` by following the tail `n` times.
pub open spec fn nth_tail(s: NetState, node: Ptr, n: nat) -> Ptr
    decreases n,
{
    if n == 0 {
        node
    } else {
        second(s, nth_tail(s, node, (n - 1) as nat))
    }
}

/// The list of pixels of row `y`.
pub open spec fn row(s: NetState, y: nat) -> Ptr {
    first(s, nth_tail(s, s.root, y))
}

/// The pixel in row `y`, column `x`.
pub open spec fn cell(s: NetState, y: nat, x: nat) -> Ptr {
    first(s, nth_tail(s, row(s, y), x))
}

/// Whether the pixel in row `y`, column `x` is lit.
pub open spec fn lit(s: NetState, y: nat, x: nat) -> bool {
    first(s, cell(s, y, x)) != Ptr::Era
}

/// Whether the net can be read as a list of `IMAGE_SIZE` rows of
/// `IMAGE_SIZE` pixels each.
pub open spec fn list_readable(s: NetState) -> bool {
    &&& forall|y: nat| y < IMAGE_SIZE ==> addressed(s, #[trigger] nth_tail(s, s.root, y))
    &&& forall|y: nat, x: nat|
        y < IMAGE_SIZE && x < IMAGE_SIZE ==> addressed(s, #[trigger] nth_tail(s, row(s, y), x))
    &&& forall|y: nat, x: nat| y < IMAGE_SIZE && x < IMAGE_SIZE ==> addressed(s, #[trigger] cell(s, y, x))
}

/// The byte that a pixel contributes to each of its three channels.
pub open spec fn shade(on: bool) -> u8 {
    if on {
        0xff
    } else {
        0x00
    }
}

/// Paints the pixel whose three bytes start at `idx`, white or black.
fn paint(image: &mut [u8; IMAGE_BYTES], idx: usize, on: bool)
    requires
        idx + 3 <= IMAGE_BYTES,
    ensures
        forall|i: int|
            0 <= i < IMAGE_BYTES ==> final(image)@[i] == (if idx <= i < idx + 3 {
                shade(on)
            } else {
                old(image)@[i]
            }),
{
    let v: u8 = if on {
        0xff
    } else {
        0x00
    };
    image[idx] = v;
    image[idx + 1] = v;
    image[idx + 2] = v;
}

/// Draws a net that holds a list of rows, each a list of booleans: pixel
/// `x` of row `y` is white where the boolean is true, black where it is
/// false.
#[verifier::rlimit(40)]
pub fn net_list_to_image(net: &mut Net, image: &mut [u8; IMAGE_BYTES])
    requires
        list_readable(old(net)@),
    ensures
        *final(net) == *old(net),
        forall|y: nat, x: nat, k: nat|
            y < IMAGE_SIZE && x < IMAGE_SIZE && k < 3 ==> #[trigger] final(image)@[((y * IMAGE_SIZE
                + x) * 3 + k) as int] == shade(lit(old(net)@, y, x)),
{
    let ghost s = net@;
    let mut rows = net.root;
    let mut y: usize = 0;
    while y < IMAGE_SIZE
        invariant
            y <= IMAGE_SIZE,
            *net == *old(net),
            s == net@,
            list_readable(s),
            rows == nth_tail(s, s.root, y as nat),
            forall|i: int|
                0 <= i < 3 * (y * IMAGE_SIZE) ==> #[trigger] image@[i] == shade(
                    lit(s, (i / 3 / 256) as nat, (i / 3 % 256) as nat),
                ),
        decreases IMAGE_SIZE - y,
    {
        let current_row = _left(net, rows);
        let mut cells = current_row;
        let mut x: usize = 0;
        while x < IMAGE_SIZE
            invariant
                x <= IMAGE_SIZE,
                y < IMAGE_SIZE,
                *net == *old(net),
                s == net@,
                list_readable(s),
                cells == nth_tail(s, row(s, y as nat), x as nat),
                forall|i: int|
                    0 <= i < 3 * (y * IMAGE_SIZE + x) ==> #[trigger] image@[i] == shade(
                        lit(s, (i / 3 / 256) as nat, (i / 3 % 256) as nat),
                    ),
            decreases IMAGE_SIZE - x,
        {
            assert(addressed(s, nth_tail(s, row(s, y as nat), x as nat)));
            assert(addressed(s, cell(s, y as nat, x as nat)));
            let idx = (y * IMAGE_SIZE + x) * 3;
            let current_cell = _left(net, cells);
            let is_true = !_left(net, current_cell).is_era();
            paint(image, idx, is_true);
            cells = _right(net, cells);
            x += 1;
        }
        assert(addressed(s, nth_tail(s, s.root, y as nat)));
        rows = _right(net, rows);
        y += 1;
    }
    assert forall|y: nat, x: nat, k: nat| y < IMAGE_SIZE && x < IMAGE_SIZE && k < 3 implies #[trigger] image@[((
    y * IMAGE_SIZE + x) * 3 + k) as int] == shade(lit(s, y, x)) by {
        let i = ((y * IMAGE_SIZE + x) * 3 + k) as int;
        assert(i / 3 == y * 256 + x);
        assert(i / 3 / 256 == y);
        assert(i / 3 % 256 == x);
    }
}

/// How far the walk has come below one node of the tree.
#[derive(Clone, Copy, Debug, PartialEq, Eq)]
pub enum VisitedStatus {
    Unvisited,
    VisitedLeft,
    VisitedBoth,
}

/// One node on the way from the root to the place of the walk.
#[derive(Clone, Copy, Debug)]
pub struct StackEntry {
    pub node: Ptr,
    pub visited: VisitedStatus,
    pub depth: u16,
}

/// Two to the power `h`: the number of leaves of a tree of height `h`.
pub open spec fn leaves(h: nat) -> nat
    decreases h,
{
    if h == 0 {
        1
    } else {
        2 * leaves((h - 1) as nat)
    }
}

/// The node number `i`, counted from the left, among the nodes `d` levels
/// below the root.
pub open spec fn node_at(s: NetState, d: nat, i: nat) -> Ptr
    decreases d,
{
    if d == 0 {
        s.root
    } else if i % 2 == 0 {
        left_of(s, node_at(s, (d - 1) as nat, i / 2))
    } else {
        right_of(s, node_at(s, (d - 1) as nat, i / 2))
    }
}

/// Whether the tree of height `h` below `node` can be read, down to the
/// boolean at every leaf.
#[verifier::opaque]
pub open spec fn readable_below(s: NetState, node: Ptr, h: nat) -> bool
    decreases h,
{
    if h == 0 {
        leaf_readable(s, node)
    } else {
        &&& left_readable(s, node)
        &&& right_readable(s, node)
        &&& readable_below(s, left_of(s, node), (h - 1) as nat)
        &&& readable_below(s, right_of(s, node), (h - 1) as nat)
    }
}

/// What it means that the tree below a node can be read, one level at a
/// time.
pub proof fn lemma_readable(s: NetState, node: Ptr, h: nat)
    ensures
        h == 0 ==> readable_below(s, node, h) == leaf_readable(s, node),
        h > 0 ==> readable_below(s, node, h) == (left_readable(s, node) && right_readable(s, node)
            && readable_below(s, left_of(s, node), (h - 1) as nat) && readable_below(
            s,
            right_of(s, node),
            (h - 1) as nat,
        )),
{
    reveal_with_fuel(readable_below, 2);
}

/// Whether the net can be read as a binary tree of depth `DEPTH` with a
/// boolean at every leaf.
pub open spec fn tree_readable(s: NetState) -> bool {
    readable_below(s, s.root, DEPTH as nat)
}

/// The leaves below a node of height `h` that the walk has dealt with when
/// the node's entry says `v`.
pub open spec fn covered(v: VisitedStatus, h: nat) -> nat {
    match v {
        VisitedStatus::Unvisited => 0,
        VisitedStatus::VisitedLeft => leaves((h - 1) as nat),
        VisitedStatus::VisitedBoth => leaves(h),
    }
}

/// What orders the states of the walk between two leaves: it first climbs
/// from finished nodes, then descends to the next leaf.
pub open spec fn rank(v: VisitedStatus, depth: nat) -> int {
    match v {
        VisitedStatus::VisitedBoth => 100 + depth as int,
        _ => 50 - depth as int,
    }
}

/// A tree of height `DEPTH` has one leaf per pixel.
pub proof fn lemma_leaves()
    ensures
        leaves(DEPTH as nat) == IMAGE_SIZE * IMAGE_SIZE,
        forall|h: nat| h <= DEPTH ==> 0 < #[trigger] leaves(h) <= IMAGE_SIZE * IMAGE_SIZE,
{
    reveal_with_fuel(leaves, 18);
    assert forall|h: nat| h <= DEPTH implies 0 < #[trigger] leaves(h) <= IMAGE_SIZE * IMAGE_SIZE by {
        if h == 0 {
        } else if h == 1 {
        } else if h == 2 {
        } else if h == 3 {
        } else if h == 4 {
        } else if h == 5 {
        } else if h == 6 {
        } else if h == 7 {
        } else if h == 8 {
        } else if h == 9 {
        } else if h == 10 {
        } else if h == 11 {
        } else if h == 12 {
        } else if h == 13 {
        } else if h == 14 {
        } else if h == 15 {
        } else {
        }
    }
}

/// Draws a net that holds a binary tree of depth `DEPTH` with a boolean at
/// every leaf: pixel `i` is black where the `i`-th leaf from the left holds
/// false, white where it holds true.
#[verifier::rlimit(40)]
pub fn net_bin_tree_to_image(net: &mut Net, image: &mut [u8; IMAGE_BYTES])
    requires
        tree_readable(old(net)@),
    ensures
        *final(net) == *old(net),
        forall|i: nat, k: nat|
            i < IMAGE_SIZE * IMAGE_SIZE && k < 3 ==> #[trigger] final(image)@[(3 * i + k) as int]
                == shade(!leaf_is_false(old(net)@, node_at(old(net)@, DEPTH as nat, i))),
{
    let ghost s = net@;
    let mut image_i: usize = 0;
    let mut stack: Vec<StackEntry> = Vec::new();
    stack.push(StackEntry { node: net.root, visited: VisitedStatus::Unvisited, depth: 0 });
    let ghost mut path: Seq<nat> = seq![0nat];
    let ghost mut lo: Seq<nat> = seq![0nat];
    let ghost mut done: nat = 0;
    proof {
        lemma_leaves();
        assert(path[0] * leaves(DEPTH as nat) == 0) by (nonlinear_arith)
            requires
                path[0] == 0,
        ;
    }
    while stack.len() > 0
        invariant
            *net == *old(net),
            s == net@,
            tree_readable(s),
            stack@.len() <= DEPTH + 1,
            path.len() == stack@.len(),
            lo.len() == stack@.len(),
            forall|j: int| 0 <= j < stack@.len() ==> (#[trigger] stack@[j]).depth == j,
            forall|j: int|
                0 <= j < stack@.len() ==> (#[trigger] path[j]) < leaves(j as nat) && stack@[j].node
                    == node_at(s, j as nat, path[j]),
            forall|j: int|
                0 <= j < stack@.len() ==> readable_below(
                    s,
                    (#[trigger] stack@[j]).node,
                    (DEPTH - j) as nat,
                ),
            forall|j: int|
                0 <= j < stack@.len() ==> (#[trigger] lo[j]) == path[j] * leaves((DEPTH - j) as nat),
            forall|j: int|
                0 <= j < stack@.len() - 1 ==> (#[trigger] stack@[j]).visited
                    != VisitedStatus::Unvisited && path[j + 1] == 2 * path[j] + (if stack@[j].visited
                    == VisitedStatus::VisitedBoth {
                    1nat
                } else {
                    0nat
                }),
            stack@.len() > 0 ==> done == lo[stack@.len() - 1] + covered(
                stack@[stack@.len() - 1].visited,
                (DEPTH - (stack@.len() - 1)) as nat,
            ),
            stack@.len() > 0 && stack@[stack@.len() - 1].depth == DEPTH ==> stack@[stack@.len()
                - 1].visited == VisitedStatus::Unvisited,
            stack@.len() == 0 ==> done == IMAGE_SIZE * IMAGE_SIZE,
            done <= IMAGE_SIZE * IMAGE_SIZE,
            image_i == 3 * done,
            forall|i: nat, k: nat|
                i < done && k < 3 ==> #[trigger] image@[(3 * i + k) as int] == shade(
                    !leaf_is_false(s, node_at(s, DEPTH as nat, i)),
                ),
        decreases
                IMAGE_SIZE * IMAGE_SIZE - done,
                (if stack@.len() > 0 {
                    rank(stack@[stack@.len() - 1].visited, (stack@.len() - 1) as nat)
                } else {
                    0
                }),
    {
        let last = stack.len() - 1;
        let depth = stack[last].depth;
        let visited = stack[last].visited;
        let node = stack[last].node;
        let ghost h = (DEPTH - last) as nat;
        let ghost stack0 = stack@;
        let ghost path0 = path;
        proof {
            lemma_leaves();
            assert(lo[last as int] == path[last as int] * leaves(h));
        }
        if depth == DEPTH {
            proof {
                assert(leaves(0) == 1);
                assert(path[last as int] * 1 == path[last as int]) by (nonlinear_arith);
                assert(done == path[last as int]);
                assert(readable_below(s, stack@[last as int].node, 0));
                lemma_readable(s, node, 0);
            }
            let ghost before = image@;
            if is_bool_false(net, node) {
                paint(image, image_i, false);
            } else {
                paint(image, image_i, true);
            }
            image_i += 3;
            stack.pop();
            proof {
                assert forall|i: nat, k: nat| i < done + 1 && k < 3 implies #[trigger] image@[(3 * i
                    + k) as int] == shade(!leaf_is_false(s, node_at(s, DEPTH as nat, i))) by {
                    if i < done {
                        assert(before[(3 * i + k) as int] == shade(
                            !leaf_is_false(s, node_at(s, DEPTH as nat, i)),
                        ));
                    }
                }
                path = path.drop_last();
                lo = lo.drop_last();
                done = done + 1;
                if last > 0 {
                    let up = (last - 1) as int;
                    assert(stack@[up] == stack0[up]);
                    lemma_step_up(path[up], lo[up], path0[last as int], (DEPTH - up) as nat);
                }
            }
        } else {
            proof {
                assert(readable_below(s, stack@[last as int].node, h));
                lemma_readable(s, node, h);
                assert(leaves(h) == 2 * leaves((h - 1) as nat));
            }
            match visited {
                VisitedStatus::Unvisited => {
                    stack[last].visited = VisitedStatus::VisitedLeft;
                    let child = left(net, node);
                    stack.push(
                        StackEntry { node: child, visited: VisitedStatus::Unvisited, depth: depth + 1 },
                    );
                    proof {
                        let p = path[last as int];
                        lemma_step_down(p, lo[last as int], 0, h);
                        path = path.push(2 * p);
                        lo = lo.push(lo[last as int]);
                        assert((2 * p) % 2 == 0 && (2 * p) / 2 == p);
                    }
                },
                VisitedStatus::VisitedLeft => {
                    stack[last].visited = VisitedStatus::VisitedBoth;
                    let child = right(net, node);
                    stack.push(
                        StackEntry { node: child, visited: VisitedStatus::Unvisited, depth: depth + 1 },
                    );
                    proof {
                        let p = path[last as int];
                        lemma_step_down(p, lo[last as int], 1, h);
                        path = path.push(2 * p + 1);
                        lo = lo.push(lo[last as int] + leaves((h - 1) as nat));
                        assert((2 * p + 1) % 2 == 1 && (2 * p + 1) / 2 == p);
                    }
                },
                VisitedStatus::VisitedBoth => {
                    stack.pop();
                    proof {
                        path = path.drop_last();
                        lo = lo.drop_last();
                        if last > 0 {
                            let up = (last - 1) as int;
                            assert(stack@[up] == stack0[up]);
                            lemma_step_up(path[up], lo[up], path0[last as int], (DEPTH - up) as nat);
                        }
                    }
                },
            }
        }
    }
}

/// The child number `2 * p + b` of a level starts `b` half-trees behind
/// where node `p` of the level above starts.
pub proof fn lemma_step_down(p: nat, lo: nat, b: nat, h: nat)
    requires
        h >= 1,
        b <= 1,
        lo == p * leaves(h),
    ensures
        lo + b * leaves((h - 1) as nat) == (2 * p + b) * leaves((h - 1) as nat),
        b * leaves((h - 1) as nat) == (if b == 1 {
            leaves((h - 1) as nat)
        } else {
            0
        }),
{
    let half = leaves((h - 1) as nat);
    assert(leaves(h) == 2 * half);
    assert(p * (2 * half) + b * half == (2 * p + b) * half) by (nonlinear_arith);
    assert(b * half == (if b == 1 {
        half
    } else {
        0
    })) by (nonlinear_arith)
        requires
            b <= 1,
    ;
}

/// Where a child ends, seen from its parent: a left child ends where the
/// parent's left half ends, a right child where the parent ends.
pub proof fn lemma_step_up(p: nat, lo: nat, c: nat, h: nat)
    requires
        h >= 1,
        lo == p * leaves(h),
        c == 2 * p || c == 2 * p + 1,
    ensures
        c * leaves((h - 1) as nat) + leaves((h - 1) as nat) == lo + (if c == 2 * p {
            leaves((h - 1) as nat)
        } else {
            leaves(h)
        }),
{
    let half = leaves((h - 1) as nat);
    assert(leaves(h) == 2 * half);
    assert(p * (2 * half) + half == (2 * p) * half + half) by (nonlinear_arith);
    assert((2 * p + 1) * half + half == p * (2 * half) + 2 * half) by (nonlinear_arith);
}

fn in_arena(net: &Net, node: Ptr) -> (b: bool)
    ensures
        b == addressed(net@, node),
{
    node.val() < net.nodes.len() as u64
}

fn can_read_leaf(net: &mut Net, node: Ptr) -> (b: bool)
    ensures
        *final(net) == *old(net),
        b == leaf_readable(old(net)@, node),
{
    if !in_arena(net, node) {
        return false;
    }
    let x = _right(net, node);
    if !in_arena(net, x) {
        return false;
    }
    let x = _left(net, x);
    if !in_arena(net, x) {
        return false;
    }
    let x = _left(net, x);
    in_arena(net, x)
}

fn can_read_below(net: &mut Net, node: Ptr, h: u16) -> (b: bool)
    ensures
        *final(net) == *old(net),
        b == readable_below(old(net)@, node, h as nat),
    decreases h,
{
    proof {
        lemma_readable(net@, node, h as nat);
    }
    if h == 0 {
        return can_read_leaf(net, node);
    }
    if !in_arena(net, node) {
        return false;
    }
    let a = _left(net, node);
    if !in_arena(net, a) {
        return false;
    }
    let b = _right(net, a);
    if !in_arena(net, b) {
        return false;
    }
    let l = _left(net, a);
    let r = _left(net, b);
    can_read_below(net, l, h - 1) && can_read_below(net, r, h - 1)
}

/// Whether `net_bin_tree_to_image` can draw the net.
pub fn can_draw_tree(net: &mut Net) -> (b: bool)
    ensures
        *final(net) == *old(net),
        b == tree_readable(old(net)@),
{
    let root = net.root;
    can_read_below(net, root, DEPTH)
}

/// Whether `net_list_to_image` can draw the net.
#[verifier::rlimit(40)]
pub fn can_draw_list(net: &mut Net) -> (b: bool)
    ensures
        *final(net) == *old(net),
        b == list_readable(old(net)@),
{
    let ghost s = net@;
    let mut rows = net.root;
    let mut y: usize = 0;
    while y < IMAGE_SIZE
        invariant
            y <= IMAGE_SIZE,
            *net == *old(net),
            s == net@,
            rows == nth_tail(s, s.root, y as nat),
            forall|v: nat| v < y ==> addressed(s, #[trigger] nth_tail(s, s.root, v)),
            forall|v: nat, u: nat|
                v < y && u < IMAGE_SIZE ==> addressed(s, #[trigger] nth_tail(s, row(s, v), u)),
            forall|v: nat, u: nat| v < y && u < IMAGE_SIZE ==> addressed(s, #[trigger] cell(s, v, u)),
        decreases IMAGE_SIZE - y,
    {
        if !in_arena(net, rows) {
            assert(!addressed(s, nth_tail(s, s.root, y as nat)));
            return false;
        }
        let mut cells = _left(net, rows);
        let mut x: usize = 0;
        while x < IMAGE_SIZE
            invariant
                x <= IMAGE_SIZE,
                y < IMAGE_SIZE,
                *net == *old(net),
                s == net@,
                cells == nth_tail(s, row(s, y as nat), x as nat),
                forall|u: nat| u < x ==> addressed(s, #[trigger] nth_tail(s, row(s, y as nat), u)),
                forall|u: nat| u < x ==> addressed(s, #[trigger] cell(s, y as nat, u)),
            decreases IMAGE_SIZE - x,
        {
            if !in_arena(net, cells) {
                assert(!addressed(s, nth_tail(s, row(s, y as nat), x as nat)));
                return false;
            }
            let c = _left(net, cells);
            if !in_arena(net, c) {
                assert(!addressed(s, cell(s, y as nat, x as nat)));
                return false;
            }
            cells = _right(net, cells);
            x += 1;
        }
        rows = _right(net, rows);
        y += 1;
    }
    true
}

} // verus!
