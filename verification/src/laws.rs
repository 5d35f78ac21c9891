//! What holds of the rewrite rules, whatever the net.

use vstd::prelude::*;
use crate::book::{lemma_instantiate_wf, lemma_place, TemplateState};
use crate::error::Error;
use crate::net::{
    lemma_alloc_wf, lemma_link_wf, lemma_release_wf, lemma_write_wf, NetState,
};
use crate::ptr::Ptr;
use crate::rules::expands;

verus! {

/// Whether `t` has the counters and the arena size of `s`, and a sound free
/// list.
pub open spec fn keeps(s: NetState, t: NetState) -> bool {
    &&& t.wf()
    &&& t.nodes.len() == s.nodes.len()
    &&& t.rwts == s.rwts
    &&& t.dref == s.dref
}

/// Joining the contents of a port with a pointer changes neither the
/// counters nor the number of agents.
pub proof fn lemma_wire_keeps(s: NetState, p: Ptr, v: Ptr)
    requires
        s.wf(),
        s.wire(p, v) is Ok,
    ensures
        keeps(s, s.wire(p, v).unwrap()),
        s.wire(p, v).unwrap().free == s.free,
        forall|x: u64| s.wire(p, v).unwrap().is_live(x) == s.is_live(x),
{
    lemma_link_wf(s, s.read(p).unwrap(), v);
}

/// Joining the contents of two ports changes neither the counters nor the
/// number of agents.
pub proof fn lemma_join_keeps(s: NetState, p: Ptr, q: Ptr)
    requires
        s.wf(),
        s.join(p, q) is Ok,
    ensures
        keeps(s, s.join(p, q).unwrap()),
        s.join(p, q).unwrap().free == s.free,
        forall|x: u64| s.join(p, q).unwrap().is_live(x) == s.is_live(x),
{
    lemma_link_wf(s, s.read(p).unwrap(), s.read(q).unwrap());
}

/// Setting the ports of an agent changes neither the counters nor the
/// number of agents.
pub proof fn lemma_fill_keeps(s: NetState, addr: u64, p1: Ptr, p2: Ptr)
    requires
        s.wf(),
        s.fill(addr, p1, p2) is Ok,
    ensures
        keeps(s, s.fill(addr, p1, p2).unwrap()),
        s.fill(addr, p1, p2).unwrap().free == s.free,
        forall|x: u64| s.fill(addr, p1, p2).unwrap().is_live(x) == s.is_live(x),
{
    let t = s.fill(addr, p1, p2).unwrap();
    assert forall|i: int| 0 <= i < t.nodes.len() && !(#[trigger] t.nodes[i]).live implies t.free.contains(
        i as u64,
    ) by {
        assert(!s.nodes[i].live);
    }
}

/// Erasing a two-port agent keeps the counters and removes one agent.
pub proof fn lemma_erase_keeps(s: NetState, n: Ptr, addr: u64)
    requires
        s.wf(),
        s.erase(n, addr) is Ok,
    ensures
        keeps(s, s.erase(n, addr).unwrap()),
        s.erase(n, addr).unwrap().live_count() == s.live_count() - 1,
{
    reveal(NetState::erase);
    let s1 = s.wire(Ptr::Aux1(addr), n).unwrap();
    lemma_wire_keeps(s, Ptr::Aux1(addr), n);
    let s2 = s1.wire(Ptr::Aux2(addr), n).unwrap();
    lemma_wire_keeps(s1, Ptr::Aux2(addr), n);
    lemma_release_wf(s2, addr);
}

/// Two agents that cancel out leave the counters alone, and the arena has
/// two agents fewer.
pub proof fn lemma_annihilate_keeps(s: NetState, a: u64, b: u64)
    requires
        s.wf(),
        s.annihilate(a, b) is Ok,
    ensures
        keeps(s, s.annihilate(a, b).unwrap()),
        s.annihilate(a, b).unwrap().live_count() == s.live_count() - 2,
{
    reveal(NetState::annihilate);
    let s1 = s.join(Ptr::Aux1(a), Ptr::Aux1(b)).unwrap();
    lemma_join_keeps(s, Ptr::Aux1(a), Ptr::Aux1(b));
    let s2 = s1.join(Ptr::Aux2(a), Ptr::Aux2(b)).unwrap();
    lemma_join_keeps(s1, Ptr::Aux2(a), Ptr::Aux2(b));
    let s3 = s2.release(a).unwrap();
    lemma_release_wf(s2, a);
    lemma_release_wf(s3, b);
}

/// Taking four slots keeps the counters; the four addresses are distinct,
/// were free, and now hold agents.
#[verifier::rlimit(40)]
pub proof fn lemma_allocate4(s: NetState)
    requires
        s.wf(),
        s.allocate4() is Ok,
    ensures
        keeps(s, s.allocate4().unwrap().0),
        s.allocate4().unwrap().0.live_count() == s.live_count() + 4,
        ({
            let (t, (w, x, y, z)) = s.allocate4().unwrap();
            &&& w != x && w != y && w != z && x != y && x != z && y != z
            &&& !s.is_live(w) && !s.is_live(x) && !s.is_live(y) && !s.is_live(z)
            &&& t.is_live(w) && t.is_live(x) && t.is_live(y) && t.is_live(z)
            &&& forall|i: u64| s.is_live(i) ==> t.is_live(i)
            &&& forall|i: u64| t.is_live(i) ==> s.is_live(i) || i == w || i == x || i == y || i == z
            &&& forall|i: u64| s.is_live(i) ==> t.nodes[i as int] == s.nodes[i as int]
            &&& t.root == s.root
            &&& t.acts == s.acts
        }),
{
    let (s1, w) = s.allocate().unwrap();
    lemma_alloc_wf(s);
    let (s2, x) = s1.allocate().unwrap();
    lemma_alloc_wf(s1);
    let (s3, y) = s2.allocate().unwrap();
    lemma_alloc_wf(s2);
    let (s4, z) = s3.allocate().unwrap();
    lemma_alloc_wf(s3);
}

/// Handing the copies to the neighbours keeps the counters and the agents.
pub proof fn lemma_pass_keeps(s: NetState, a: Ptr, b: Ptr, b1: u64, b2: u64, a1: u64, a2: u64)
    requires
        s.wf(),
        s.pass(a, b, b1, b2, a1, a2) is Ok,
    ensures
        keeps(s, s.pass(a, b, b1, b2, a1, a2).unwrap()),
        s.pass(a, b, b1, b2, a1, a2).unwrap().free == s.free,
        forall|x: u64| s.pass(a, b, b1, b2, a1, a2).unwrap().is_live(x) == s.is_live(x),
{
    let s1 = s.wire(Ptr::Aux1(a.val()), b.at(b1)).unwrap();
    lemma_wire_keeps(s, Ptr::Aux1(a.val()), b.at(b1));
    let s2 = s1.wire(Ptr::Aux1(b.val()), a.at(a1)).unwrap();
    lemma_wire_keeps(s1, Ptr::Aux1(b.val()), a.at(a1));
    let s3 = s2.wire(Ptr::Aux2(a.val()), b.at(b2)).unwrap();
    lemma_wire_keeps(s2, Ptr::Aux2(a.val()), b.at(b2));
    lemma_wire_keeps(s3, Ptr::Aux2(b.val()), a.at(a2));
}

/// Wiring the copies to each other keeps the counters and the agents.
pub proof fn lemma_mesh_keeps(s: NetState, b1: u64, b2: u64, a1: u64, a2: u64)
    requires
        s.wf(),
        s.mesh(b1, b2, a1, a2) is Ok,
    ensures
        keeps(s, s.mesh(b1, b2, a1, a2).unwrap()),
        s.mesh(b1, b2, a1, a2).unwrap().free == s.free,
        forall|x: u64| s.mesh(b1, b2, a1, a2).unwrap().is_live(x) == s.is_live(x),
{
    let s1 = s.fill(b1, Ptr::Aux1(a1), Ptr::Aux1(a2)).unwrap();
    lemma_fill_keeps(s, b1, Ptr::Aux1(a1), Ptr::Aux1(a2));
    let s2 = s1.fill(b2, Ptr::Aux2(a1), Ptr::Aux2(a2)).unwrap();
    lemma_fill_keeps(s1, b2, Ptr::Aux2(a1), Ptr::Aux2(a2));
    let s3 = s2.fill(a1, Ptr::Aux1(b1), Ptr::Aux1(b2)).unwrap();
    lemma_fill_keeps(s2, a1, Ptr::Aux1(b1), Ptr::Aux1(b2));
    lemma_fill_keeps(s3, a2, Ptr::Aux2(b1), Ptr::Aux2(b2));
}

/// Two agents that pass through each other leave the counters alone, and
/// the arena has two agents more.
#[verifier::rlimit(40)]
pub proof fn lemma_commute_keeps(s: NetState, a: Ptr, b: Ptr)
    requires
        s.wf(),
        s.commute(a, b) is Ok,
    ensures
        keeps(s, s.commute(a, b).unwrap()),
        s.commute(a, b).unwrap().live_count() == s.live_count() + 2,
{
    reveal(NetState::commute);
    let (s1, (b1, b2, a1, a2)) = s.allocate4().unwrap();
    lemma_allocate4(s);
    let s2 = s1.pass(a, b, b1, b2, a1, a2).unwrap();
    lemma_pass_keeps(s1, a, b, b1, b2, a1, a2);
    let s3 = s2.mesh(b1, b2, a1, a2).unwrap();
    lemma_mesh_keeps(s2, b1, b2, a1, a2);
    let s4 = s3.release(a.val()).unwrap();
    lemma_release_wf(s3, a.val());
    lemma_release_wf(s4, b.val());
}

/// A numeral that meets an operator leaves the counters alone.
pub proof fn lemma_arith_keeps(s: NetState, op: u32, addr: u64, n: u64)
    requires
        s.wf(),
        s.arith(op, addr, n) is Ok,
    ensures
        keeps(s, s.arith(op, addr, n).unwrap()),
{
    reveal(NetState::arith);
    match s.read(Ptr::Aux1(addr)).unwrap() {
        Ptr::Num(m) => {
            let v = Ptr::Num(crate::rules::compute(op, n, m));
            lemma_wire_keeps(s, Ptr::Aux2(addr), v);
            lemma_release_wf(s.wire(Ptr::Aux2(addr), v).unwrap(), addr);
        },
        x => {
            lemma_write_wf(s, Ptr::Aux1(addr), Ptr::Num(n));
            lemma_link_wf(
                s.write(Ptr::Aux1(addr), Ptr::Num(n)).unwrap(),
                x,
                Ptr::Opr(crate::rules::flip(op), addr),
            );
        },
    }
}

/// Expanding a reference advances the reference counter by one and keeps
/// the rewrite counter; the arena has as many more agents as the definition
/// has.
pub proof fn lemma_deref_keeps(s: NetState, book: Map<u64, TemplateState>, name: u64)
    requires
        s.wf(),
        s.deref(book, name) is Ok,
    ensures
        s.deref(book, name).unwrap().0.wf(),
        s.deref(book, name).unwrap().0.nodes.len() == s.nodes.len(),
        s.deref(book, name).unwrap().0.rwts == s.rwts,
        s.deref(book, name).unwrap().0.dref == s.dref + 1,
        s.deref(book, name).unwrap().0.live_count() == s.live_count() + book[name].nodes.len(),
{
    reveal(NetState::deref);
    let d = NetState { dref: (s.dref + 1) as u64, ..s };
    let t = book[name];
    lemma_instantiate_wf(d, t);
    let n = t.nodes.len();
    let m = d.free.len();
    let locs = t.places(d.free);
    assert forall|i: int, j: int| 0 <= i < n && 0 <= j < n && i != j implies locs[i] != locs[j] by {
        assert(locs[i] == d.free[m - 1 - i]);
        assert(locs[j] == d.free[m - 1 - j]);
    }
    assert forall|i: int| 0 <= i < n implies (#[trigger] locs[i]) < d.nodes.len() by {
        assert(locs[i] == d.free[m - 1 - i]);
    }
    lemma_place(d.nodes, t.nodes, locs, n);
}

/// What one rewrite does to the counters: the rewrite counter advances by
/// one, whatever the rule; the reference counter advances by one exactly if
/// a reference of the pair is expanded.
#[verifier::rlimit(40)]
pub proof fn lemma_step_counters(s: NetState, book: Map<u64, TemplateState>, a: Ptr, b: Ptr)
    requires
        s.wf(),
        s.step(book, a, b) is Ok,
    ensures
        s.step(book, a, b).unwrap().wf(),
        s.step(book, a, b).unwrap().nodes.len() == s.nodes.len(),
        s.step(book, a, b).unwrap().rwts == s.rwts + 1,
        s.step(book, a, b).unwrap().dref == s.dref + (if expands(a, b) || expands(b, a) {
            1int
        } else {
            0int
        }),
{
    reveal(NetState::step);
    let s0 = NetState { rwts: (s.rwts + 1) as u64, ..s };
    assert(s0.wf());
    if expands(a, b) {
        lemma_deref_keeps(s0, book, a.val());
        let (s1, r) = s0.deref(book, a.val()).unwrap();
        lemma_link_wf(s1, r, b);
    } else if expands(b, a) {
        lemma_deref_keeps(s0, book, b.val());
        let (s1, r) = s0.deref(book, b.val()).unwrap();
        lemma_link_wf(s1, r, a);
    } else if a.is_nul() && b.is_nul() {
    } else if a.is_nul() {
        lemma_absorb_keeps(s0, a, b);
    } else if b.is_nul() {
        lemma_absorb_keeps(s0, b, a);
    } else if crate::rules::annihilates(a, b) {
        lemma_annihilate_keeps(s0, a.val(), b.val());
    } else {
        lemma_commute_keeps(s0, a, b);
    }
}

/// An agent without ports that meets a two-port agent leaves the counters
/// alone.
pub proof fn lemma_absorb_keeps(s: NetState, n: Ptr, c: Ptr)
    requires
        s.wf(),
        s.absorb(n, c) is Ok,
    ensures
        keeps(s, s.absorb(n, c).unwrap()),
{
    match (n, c) {
        (Ptr::Num(v), Ptr::Opr(op, addr)) => {
            lemma_arith_keeps(s, op, addr, v);
        },
        _ => {
            lemma_erase_keeps(s, n, c.val());
        },
    }
}

/// Whether `x` and `y` are the two ends of one wire in `t`: each of them
/// that is a port holds the other, and two agents are a pending pair.
pub open spec fn joined(t: NetState, x: Ptr, y: Ptr) -> bool {
    &&& x.is_var() ==> t.is_port(x) && t.get(x) == Some(y)
    &&& y.is_var() ==> t.is_port(y) && t.get(y) == Some(x)
    &&& !x.is_var() && !y.is_var() ==> t.acts.contains((x, y))
}

/// Whether `p` is no port of the agents at `a` and `b`.
pub open spec fn outside(p: Ptr, a: u64, b: u64) -> bool {
    p.is_var() ==> p is Root || (p.val() != a && p.val() != b)
}

/// Whether `x` and `y` are not one and the same port.
pub open spec fn apart(x: Ptr, y: Ptr) -> bool {
    x.is_var() && y.is_var() ==> x != y
}

/// Whether the agents at `a` and `b` are two live agents whose four
/// auxiliary ports lead away from the pair, to four different places. In a
/// net where every port is one end of exactly one wire this fails only if a
/// wire joins two of the four ports directly.
pub open spec fn separate(s: NetState, a: u64, b: u64) -> bool {
    let a1 = s.nodes[a as int].p1;
    let a2 = s.nodes[a as int].p2;
    let b1 = s.nodes[b as int].p1;
    let b2 = s.nodes[b as int].p2;
    &&& s.is_live(a) && s.is_live(b) && a != b
    &&& outside(a1, a, b) && outside(a2, a, b) && outside(b1, a, b) && outside(b2, a, b)
    &&& apart(a1, a2) && apart(a1, b1) && apart(a1, b2)
    &&& apart(a2, b1) && apart(a2, b2) && apart(b1, b2)
}

/// What joining `x` and `y` does, seen from outside: the two are wired, the
/// free list and the liveness of every slot stay, a port other than `x` and
/// `y` holds what it held, and the pending pairs are kept.
pub proof fn lemma_link_effect(s: NetState, x: Ptr, y: Ptr)
    requires
        s.wf(),
        s.link(x, y) is Ok,
        apart(x, y),
    ensures
        joined(s.link(x, y).unwrap(), x, y),
        forall|p: Ptr|
            p.is_var() && p != x && p != y ==> #[trigger] s.link(x, y).unwrap().get(p) == s.get(p),
        forall|k: int|
            0 <= k < s.acts.len() ==> s.link(x, y).unwrap().acts[k] == #[trigger] s.acts[k],
        s.acts.len() <= s.link(x, y).unwrap().acts.len(),
{
    let t = s.link(x, y).unwrap();
    lemma_link_wf(s, x, y);
    if !x.is_var() && !y.is_var() {
        assert(t.acts[s.acts.len() as int] == (x, y));
    }
}

/// A wire stays a wire when two other pointers are joined.
pub proof fn lemma_link_keeps_wire(s: NetState, x: Ptr, y: Ptr, u: Ptr, v: Ptr)
    requires
        s.wf(),
        s.link(x, y) is Ok,
        apart(x, y),
        joined(s, u, v),
        apart(u, x),
        apart(u, y),
        apart(v, x),
        apart(v, y),
    ensures
        joined(s.link(x, y).unwrap(), u, v),
{
    let t = s.link(x, y).unwrap();
    lemma_link_effect(s, x, y);
    lemma_link_wf(s, x, y);
    if !u.is_var() && !v.is_var() {
        let k = choose|k: int| 0 <= k < s.acts.len() && s.acts[k] == (u, v);
        assert(t.acts[k] == (u, v));
    }
}

/// A wire stays a wire when an agent is removed whose ports are not its
/// ends.
pub proof fn lemma_release_keeps_wire(s: NetState, addr: u64, u: Ptr, v: Ptr)
    requires
        s.wf(),
        s.release(addr) is Ok,
        joined(s, u, v),
        u.is_var() ==> u is Root || u.val() != addr,
        v.is_var() ==> v is Root || v.val() != addr,
    ensures
        joined(s.release(addr).unwrap(), u, v),
{
}

/// What annihilation does where the four auxiliary ports of the pair lead
/// to four different places outside the pair.
#[verifier::rlimit(40)]
pub proof fn lemma_annihilation_apart(s: NetState, book: Map<u64, TemplateState>, a: Ptr, b: Ptr)
    requires
        s.wf(),
        a.is_ctr(),
        b.is_ctr(),
        crate::rules::annihilates(a, b),
        separate(s, a.val(), b.val()),
        s.step(book, a, b) is Ok,
    ensures
        ({
            let t = s.step(book, a, b).unwrap();
            &&& t.live_count() == s.live_count() - 2
            &&& !t.is_live(a.val())
            &&& !t.is_live(b.val())
            &&& joined(t, s.nodes[a.val() as int].p1, s.nodes[b.val() as int].p1)
            &&& joined(t, s.nodes[a.val() as int].p2, s.nodes[b.val() as int].p2)
            &&& t.rwts == s.rwts + 1
            &&& t.dref == s.dref
        }),
{
    reveal(NetState::step);
    reveal(NetState::annihilate);
    let s0 = NetState { rwts: (s.rwts + 1) as u64, ..s };
    let x = a.val();
    let y = b.val();
    let a1 = s.nodes[x as int].p1;
    let a2 = s.nodes[x as int].p2;
    let b1 = s.nodes[y as int].p1;
    let b2 = s.nodes[y as int].p2;
    lemma_annihilate_keeps(s0, x, y);
    let s1 = s0.link(a1, b1).unwrap();
    lemma_link_effect(s0, a1, b1);
    lemma_link_wf(s0, a1, b1);
    assert(s1.get(Ptr::Aux2(x)) == s0.get(Ptr::Aux2(x)));
    assert(s1.get(Ptr::Aux2(y)) == s0.get(Ptr::Aux2(y)));
    let s2 = s1.link(a2, b2).unwrap();
    lemma_link_effect(s1, a2, b2);
    lemma_link_wf(s1, a2, b2);
    lemma_link_keeps_wire(s1, a2, b2, a1, b1);
    let s3 = s2.release(x).unwrap();
    lemma_release_wf(s2, x);
    lemma_release_keeps_wire(s2, x, a1, b1);
    lemma_release_keeps_wire(s2, x, a2, b2);
    lemma_release_keeps_wire(s3, y, a1, b1);
    lemma_release_keeps_wire(s3, y, a2, b2);
}

/// Annihilation keeps the four auxiliary wires as two: where two agents of
/// one kind (and, for duplicators, one color) face each other in a net
/// whose wires are sound, and none of their auxiliary ports is wired to a
/// port of the pair itself, one rewrite wires what the first ports held to
/// each other, and likewise what the second ports held; both agents are
/// gone, and the arena has exactly two agents fewer.
pub proof fn lemma_annihilation(s: NetState, book: Map<u64, TemplateState>, a: Ptr, b: Ptr)
    requires
        s.wf(),
        crate::wires::wired(s),
        a.is_ctr(),
        b.is_ctr(),
        crate::rules::annihilates(a, b),
        outside(s.nodes[a.val() as int].p1, a.val(), b.val()),
        outside(s.nodes[a.val() as int].p2, a.val(), b.val()),
        outside(s.nodes[b.val() as int].p1, a.val(), b.val()),
        outside(s.nodes[b.val() as int].p2, a.val(), b.val()),
        s.step(book, a, b) is Ok,
    ensures
        ({
            let t = s.step(book, a, b).unwrap();
            &&& t.live_count() == s.live_count() - 2
            &&& !t.is_live(a.val())
            &&& !t.is_live(b.val())
            &&& joined(t, s.nodes[a.val() as int].p1, s.nodes[b.val() as int].p1)
            &&& joined(t, s.nodes[a.val() as int].p2, s.nodes[b.val() as int].p2)
            &&& t.rwts == s.rwts + 1
            &&& t.dref == s.dref
        }),
{
    let x = a.val();
    let y = b.val();
    assert(s.is_live(x) && s.is_live(y) && x != y) by {
        reveal(NetState::step);
        reveal(NetState::annihilate);
        let s0 = NetState { rwts: (s.rwts + 1) as u64, ..s };
        let s1 = s0.join(Ptr::Aux1(x), Ptr::Aux1(y)).unwrap();
        lemma_join_keeps(s0, Ptr::Aux1(x), Ptr::Aux1(y));
        let s2 = s1.join(Ptr::Aux2(x), Ptr::Aux2(y)).unwrap();
        lemma_join_keeps(s1, Ptr::Aux2(x), Ptr::Aux2(y));
        lemma_release_wf(s2, x);
    }
    assert(s.is_port(Ptr::Aux1(x)) && s.is_port(Ptr::Aux2(x)));
    assert(s.is_port(Ptr::Aux1(y)) && s.is_port(Ptr::Aux2(y)));
    assert(crate::wires::wire_at(s, Ptr::Aux1(x)) && crate::wires::wire_at(s, Ptr::Aux2(x)));
    assert(crate::wires::wire_at(s, Ptr::Aux1(y)) && crate::wires::wire_at(s, Ptr::Aux2(y)));
    lemma_annihilation_apart(s, book, a, b);
}

/// What commutation does to the arena: the four slots that the free list
/// hands out next become live agents, wired to each other crosswise; the
/// two originals are removed; every other slot is as live as it was.
#[verifier::rlimit(40)]
pub proof fn lemma_commute_effect(s: NetState, a: Ptr, b: Ptr)
    requires
        s.wf(),
        s.commute(a, b) is Ok,
    ensures
        s.free.len() >= 4,
        ({
            let t = s.commute(a, b).unwrap();
            let n = s.free.len();
            let b1 = s.free[n - 1];
            let b2 = s.free[n - 2];
            let a1 = s.free[n - 3];
            let a2 = s.free[n - 4];
            &&& b1 != b2 && b1 != a1 && b1 != a2 && b2 != a1 && b2 != a2 && a1 != a2
            &&& !s.is_live(b1) && !s.is_live(b2) && !s.is_live(a1) && !s.is_live(a2)
            &&& t.is_live(b1) && t.is_live(b2) && t.is_live(a1) && t.is_live(a2)
            &&& s.is_live(a.val()) && s.is_live(b.val())
            &&& !t.is_live(a.val()) && !t.is_live(b.val())
            &&& forall|i: u64|
                i != b1 && i != b2 && i != a1 && i != a2 && i != a.val() && i != b.val()
                    ==> t.is_live(i) == s.is_live(i)
            &&& t.nodes[b1 as int].p1 == Ptr::Aux1(a1) && t.nodes[b1 as int].p2 == Ptr::Aux1(a2)
            &&& t.nodes[b2 as int].p1 == Ptr::Aux2(a1) && t.nodes[b2 as int].p2 == Ptr::Aux2(a2)
            &&& t.nodes[a1 as int].p1 == Ptr::Aux1(b1) && t.nodes[a1 as int].p2 == Ptr::Aux1(b2)
            &&& t.nodes[a2 as int].p1 == Ptr::Aux2(b1) && t.nodes[a2 as int].p2 == Ptr::Aux2(b2)
        }),
{
    reveal(NetState::commute);
    let (s1, (b1, b2, a1, a2)) = s.allocate4().unwrap();
    lemma_allocate4(s);
    let s2 = s1.pass(a, b, b1, b2, a1, a2).unwrap();
    lemma_pass_keeps(s1, a, b, b1, b2, a1, a2);
    let s3 = s2.mesh(b1, b2, a1, a2).unwrap();
    lemma_mesh_keeps(s2, b1, b2, a1, a2);
    lemma_mesh_nodes(s2, b1, b2, a1, a2);
    let s4 = s3.release(a.val()).unwrap();
    lemma_release_wf(s3, a.val());
    lemma_release_wf(s4, b.val());
}

/// What wiring four different agents to each other leaves in their ports.
pub proof fn lemma_mesh_nodes(s: NetState, b1: u64, b2: u64, a1: u64, a2: u64)
    requires
        s.wf(),
        s.mesh(b1, b2, a1, a2) is Ok,
        b1 != b2 && b1 != a1 && b1 != a2 && b2 != a1 && b2 != a2 && a1 != a2,
    ensures
        ({
            let t = s.mesh(b1, b2, a1, a2).unwrap();
            &&& t.nodes[b1 as int].p1 == Ptr::Aux1(a1) && t.nodes[b1 as int].p2 == Ptr::Aux1(a2)
            &&& t.nodes[b2 as int].p1 == Ptr::Aux2(a1) && t.nodes[b2 as int].p2 == Ptr::Aux2(a2)
            &&& t.nodes[a1 as int].p1 == Ptr::Aux1(b1) && t.nodes[a1 as int].p2 == Ptr::Aux1(b2)
            &&& t.nodes[a2 as int].p1 == Ptr::Aux2(b1) && t.nodes[a2 as int].p2 == Ptr::Aux2(b2)
        }),
{
    let s1 = s.fill(b1, Ptr::Aux1(a1), Ptr::Aux1(a2)).unwrap();
    lemma_fill_keeps(s, b1, Ptr::Aux1(a1), Ptr::Aux1(a2));
    let s2 = s1.fill(b2, Ptr::Aux2(a1), Ptr::Aux2(a2)).unwrap();
    lemma_fill_keeps(s1, b2, Ptr::Aux2(a1), Ptr::Aux2(a2));
    let s3 = s2.fill(a1, Ptr::Aux1(b1), Ptr::Aux1(b2)).unwrap();
    lemma_fill_keeps(s2, a1, Ptr::Aux1(b1), Ptr::Aux1(b2));
    lemma_fill_keeps(s3, a2, Ptr::Aux2(b1), Ptr::Aux2(b2));
}

/// Commutation trades two agents for four: where two agents that do not
/// cancel out face each other, one rewrite turns the four slots that the
/// free list hands out next into live agents, removes the two originals and
/// leaves every other slot as it was: the arena has exactly two agents
/// more. The rewrite counter advances by one.
pub proof fn lemma_commutation(s: NetState, book: Map<u64, TemplateState>, a: Ptr, b: Ptr)
    requires
        s.wf(),
        a.is_ctr(),
        b.is_ctr(),
        !crate::rules::annihilates(a, b),
        s.step(book, a, b) is Ok,
    ensures
        s.free.len() >= 4,
        ({
            let t = s.step(book, a, b).unwrap();
            let n = s.free.len();
            let fresh = set![s.free[n - 1], s.free[n - 2], s.free[n - 3], s.free[n - 4]];
            &&& fresh.len() == 4
            &&& forall|i: u64| fresh.contains(i) ==> !s.is_live(i) && t.is_live(i)
            &&& s.is_live(a.val()) && s.is_live(b.val())
            &&& !t.is_live(a.val()) && !t.is_live(b.val())
            &&& forall|i: u64|
                !fresh.contains(i) && i != a.val() && i != b.val() ==> t.is_live(i) == s.is_live(i)
            &&& t.live_count() == s.live_count() + 2
            &&& t.rwts == s.rwts + 1
            &&& t.dref == s.dref
        }),
{
    lemma_step_counters(s, book, a, b);
    let s0 = NetState { rwts: (s.rwts + 1) as u64, ..s };
    assert(s.step(book, a, b) == s0.commute(a, b)) by {
        reveal(NetState::step);
    }
    lemma_commute_keeps(s0, a, b);
    lemma_commute_effect(s0, a, b);
    let n = s.free.len();
    let b1 = s.free[n - 1];
    let b2 = s.free[n - 2];
    let a1 = s.free[n - 3];
    let a2 = s.free[n - 4];
    let fresh = set![b1, b2, a1, a2];
    assert(fresh =~= Set::empty().insert(b1).insert(b2).insert(a1).insert(a2));
    assert forall|i: u64| s0.is_live(i) == s.is_live(i) by {}
}

/// The copies that commutation makes are wired to each other crosswise:
/// each copy of one agent sees, through its two ports, the two copies of
/// the other.
pub proof fn lemma_commutation_mesh(s: NetState, book: Map<u64, TemplateState>, a: Ptr, b: Ptr)
    requires
        s.wf(),
        a.is_ctr(),
        b.is_ctr(),
        !crate::rules::annihilates(a, b),
        s.step(book, a, b) is Ok,
    ensures
        s.free.len() >= 4,
        ({
            let t = s.step(book, a, b).unwrap();
            let n = s.free.len();
            let b1 = s.free[n - 1];
            let b2 = s.free[n - 2];
            let a1 = s.free[n - 3];
            let a2 = s.free[n - 4];
            &&& joined(t, Ptr::Aux1(b1), Ptr::Aux1(a1))
            &&& joined(t, Ptr::Aux2(b1), Ptr::Aux1(a2))
            &&& joined(t, Ptr::Aux1(b2), Ptr::Aux2(a1))
            &&& joined(t, Ptr::Aux2(b2), Ptr::Aux2(a2))
        }),
{
    lemma_step_counters(s, book, a, b);
    let s0 = NetState { rwts: (s.rwts + 1) as u64, ..s };
    assert(s.step(book, a, b) == s0.commute(a, b)) by {
        reveal(NetState::step);
    }
    lemma_commute_effect(s0, a, b);
}

/// A wire stays a wire when four agents whose ports are not its ends are
/// wired to each other.
pub proof fn lemma_mesh_keeps_wire(s: NetState, b1: u64, b2: u64, a1: u64, a2: u64, u: Ptr, v: Ptr)
    requires
        s.wf(),
        s.mesh(b1, b2, a1, a2) is Ok,
        joined(s, u, v),
        u.is_var() ==> u is Root || (u.val() != b1 && u.val() != b2 && u.val() != a1 && u.val() != a2),
        v.is_var() ==> v is Root || (v.val() != b1 && v.val() != b2 && v.val() != a1 && v.val() != a2),
    ensures
        joined(s.mesh(b1, b2, a1, a2).unwrap(), u, v),
{
    let s1 = s.fill(b1, Ptr::Aux1(a1), Ptr::Aux1(a2)).unwrap();
    lemma_fill_keeps(s, b1, Ptr::Aux1(a1), Ptr::Aux1(a2));
    let s2 = s1.fill(b2, Ptr::Aux2(a1), Ptr::Aux2(a2)).unwrap();
    lemma_fill_keeps(s1, b2, Ptr::Aux2(a1), Ptr::Aux2(a2));
    let s3 = s2.fill(a1, Ptr::Aux1(b1), Ptr::Aux1(b2)).unwrap();
    lemma_fill_keeps(s2, a1, Ptr::Aux1(b1), Ptr::Aux1(b2));
    lemma_fill_keeps(s3, a2, Ptr::Aux2(b1), Ptr::Aux2(b2));
}

/// Commutation puts the copies behind the neighbours: where two agents
/// that do not cancel out face each other in a net whose wires are sound,
/// and none of their auxiliary ports is wired to a port of the pair itself,
/// one rewrite wires what each port of one agent held to the principal port
/// of a copy of the other agent.
#[verifier::rlimit(60)]
pub proof fn lemma_commutation_neighbours(
    s: NetState,
    book: Map<u64, TemplateState>,
    a: Ptr,
    b: Ptr,
)
    requires
        s.wf(),
        crate::wires::wired(s),
        a.is_ctr(),
        b.is_ctr(),
        !crate::rules::annihilates(a, b),
        outside(s.nodes[a.val() as int].p1, a.val(), b.val()),
        outside(s.nodes[a.val() as int].p2, a.val(), b.val()),
        outside(s.nodes[b.val() as int].p1, a.val(), b.val()),
        outside(s.nodes[b.val() as int].p2, a.val(), b.val()),
        s.step(book, a, b) is Ok,
    ensures
        s.free.len() >= 4,
        ({
            let t = s.step(book, a, b).unwrap();
            let n = s.free.len();
            &&& joined(t, s.nodes[a.val() as int].p1, b.at(s.free[n - 1]))
            &&& joined(t, s.nodes[a.val() as int].p2, b.at(s.free[n - 2]))
            &&& joined(t, s.nodes[b.val() as int].p1, a.at(s.free[n - 3]))
            &&& joined(t, s.nodes[b.val() as int].p2, a.at(s.free[n - 4]))
        }),
{
    lemma_step_counters(s, book, a, b);
    let s0 = NetState { rwts: (s.rwts + 1) as u64, ..s };
    assert(s.step(book, a, b) == s0.commute(a, b)) by {
        reveal(NetState::step);
    }
    reveal(NetState::commute);
    let x = a.val();
    let y = b.val();
    let x1 = s.nodes[x as int].p1;
    let x2 = s.nodes[x as int].p2;
    let y1 = s.nodes[y as int].p1;
    let y2 = s.nodes[y as int].p2;
    assert(s.is_port(Ptr::Aux1(x)) && s.is_port(Ptr::Aux2(x)));
    assert(s.is_port(Ptr::Aux1(y)) && s.is_port(Ptr::Aux2(y)));
    assert(crate::wires::wire_at(s, Ptr::Aux1(x)) && crate::wires::wire_at(s, Ptr::Aux2(x)));
    assert(crate::wires::wire_at(s, Ptr::Aux1(y)) && crate::wires::wire_at(s, Ptr::Aux2(y)));
    let (s1, (b1, b2, a1, a2)) = s0.allocate4().unwrap();
    lemma_allocate4(s0);
    let v1 = b.at(b1);
    let v2 = a.at(a1);
    let v3 = b.at(b2);
    let v4 = a.at(a2);
    // The four neighbours get the copies, one by one.
    let t1 = s1.link(x1, v1).unwrap();
    lemma_link_wf(s1, x1, v1);
    lemma_link_effect(s1, x1, v1);
    assert(t1.get(Ptr::Aux1(y)) == s1.get(Ptr::Aux1(y)));
    let t2 = t1.link(y1, v2).unwrap();
    lemma_link_wf(t1, y1, v2);
    lemma_link_effect(t1, y1, v2);
    lemma_link_keeps_wire(t1, y1, v2, x1, v1);
    assert(t2.get(Ptr::Aux2(x)) == s1.get(Ptr::Aux2(x)));
    let t3 = t2.link(x2, v3).unwrap();
    lemma_link_wf(t2, x2, v3);
    lemma_link_effect(t2, x2, v3);
    lemma_link_keeps_wire(t2, x2, v3, x1, v1);
    lemma_link_keeps_wire(t2, x2, v3, y1, v2);
    assert(t3.get(Ptr::Aux2(y)) == s1.get(Ptr::Aux2(y)));
    let s2 = t3.link(y2, v4).unwrap();
    lemma_link_wf(t3, y2, v4);
    lemma_link_effect(t3, y2, v4);
    lemma_link_keeps_wire(t3, y2, v4, x1, v1);
    lemma_link_keeps_wire(t3, y2, v4, y1, v2);
    lemma_link_keeps_wire(t3, y2, v4, x2, v3);
    assert(s1.pass(a, b, b1, b2, a1, a2) == Ok::<NetState, Error>(s2));
    // Neither the wiring of the copies nor the removal of the pair touches
    // the neighbours.
    let s3 = s2.mesh(b1, b2, a1, a2).unwrap();
    lemma_mesh_keeps(s2, b1, b2, a1, a2);
    lemma_mesh_keeps_wire(s2, b1, b2, a1, a2, x1, v1);
    lemma_mesh_keeps_wire(s2, b1, b2, a1, a2, y1, v2);
    lemma_mesh_keeps_wire(s2, b1, b2, a1, a2, x2, v3);
    lemma_mesh_keeps_wire(s2, b1, b2, a1, a2, y2, v4);
    let s4 = s3.release(x).unwrap();
    lemma_release_wf(s3, x);
    lemma_release_keeps_wire(s3, x, x1, v1);
    lemma_release_keeps_wire(s3, x, y1, v2);
    lemma_release_keeps_wire(s3, x, x2, v3);
    lemma_release_keeps_wire(s3, x, y2, v4);
    lemma_release_keeps_wire(s4, y, x1, v1);
    lemma_release_keeps_wire(s4, y, y1, v2);
    lemma_release_keeps_wire(s4, y, x2, v3);
    lemma_release_keeps_wire(s4, y, y2, v4);
}

/// Reduction keeps the free list sound and never lowers a counter.
pub proof fn lemma_reduce_keeps(s: NetState, book: Map<u64, TemplateState>, fuel: nat)
    requires
        s.wf(),
        s.reduce_run(book, fuel) is Ok,
    ensures
        s.reduce_run(book, fuel).unwrap().wf(),
        s.reduce_run(book, fuel).unwrap().acts.len() == 0,
        s.reduce_run(book, fuel).unwrap().rwts >= s.rwts,
        s.reduce_run(book, fuel).unwrap().dref >= s.dref,
        s.acts.len() > 0 ==> s.reduce_run(book, fuel).unwrap().rwts > s.rwts,
    decreases fuel,
{
    if s.acts.len() > 0 {
        let (a, b) = s.acts.last();
        lemma_step_counters(s.popped(), book, a, b);
        lemma_reduce_keeps(s.popped().step(book, a, b).unwrap(), book, (fuel - 1) as nat);
    }
}

/// An expansion keeps the free list sound and the rewrite counter; it never
/// lowers the reference counter, and one that leaves it as it was has
/// changed nothing.
pub proof fn lemma_expand_keeps(s: NetState, book: Map<u64, TemplateState>, stack: Seq<Ptr>, fuel: nat)
    requires
        s.wf(),
        s.expand_run(book, stack, fuel) is Ok,
    ensures
        s.expand_run(book, stack, fuel).unwrap().wf(),
        s.expand_run(book, stack, fuel).unwrap().rwts == s.rwts,
        s.expand_run(book, stack, fuel).unwrap().dref >= s.dref,
        s.expand_run(book, stack, fuel).unwrap().dref == s.dref ==> s.expand_run(
            book,
            stack,
            fuel,
        ).unwrap() == s,
    decreases fuel, stack.len(),
{
    if stack.len() > 0 {
        let dir = stack.last();
        let rest = stack.drop_last();
        match s.read(dir) {
            Err(e) => {},
            Ok(Ptr::Ref(name)) => {
                lemma_deref_keeps(s, book, name);
                let (s1, r) = s.deref(book, name).unwrap();
                let s2 = s1.link(dir, r).unwrap();
                lemma_link_wf(s1, dir, r);
                lemma_expand_keeps(s2, book, rest, fuel);
            },
            Ok(p) => {
                if p.is_ctr() {
                    lemma_expand_keeps(
                        s,
                        book,
                        rest.push(Ptr::Aux2(p.val())).push(Ptr::Aux1(p.val())),
                        (fuel - 1) as nat,
                    );
                } else {
                    lemma_expand_keeps(s, book, rest, fuel);
                }
            },
        }
    }
}

/// Normalization ends in a normal net: no pair is pending and an expansion
/// below the root finds nothing to do.
pub proof fn lemma_normal_is_normal(s: NetState, book: Map<u64, TemplateState>, fuel: nat)
    requires
        s.wf(),
        s.normal_run(book, fuel) is Ok,
    ensures
        s.normal_run(book, fuel).unwrap().wf(),
        s.normal_run(book, fuel).unwrap().is_normal(book),
        s.normal_run(book, fuel).unwrap().rwts >= s.rwts,
        s.normal_run(book, fuel).unwrap().dref >= s.dref,
    decreases fuel,
{
    let s1 = s.expand(book, Ptr::Root).unwrap();
    lemma_expand_keeps(s, book, seq![Ptr::Root], s.nodes.len());
    if s1.acts.len() == 0 && s1.dref == s.dref {
    } else {
        let s2 = s1.reduce(book).unwrap();
        lemma_reduce_keeps(s1, book, (u64::MAX - s1.rwts) as nat);
        lemma_normal_is_normal(s2, book, (fuel - 1) as nat);
    }
}

/// Normalizing a normal net changes nothing.
pub proof fn lemma_normal_fixed(s: NetState, book: Map<u64, TemplateState>)
    requires
        s.is_normal(book),
    ensures
        s.normal(book) == Ok::<NetState, Error>(s),
{
}

/// Normalization is idempotent: normalizing the result of a normalization
/// gives that result again, so it performs no further rewrite and expands
/// no further reference.
pub proof fn lemma_normal_twice(s: NetState, book: Map<u64, TemplateState>)
    requires
        s.wf(),
        s.normal(book) is Ok,
    ensures
        s.normal(book).unwrap().normal(book) == s.normal(book),
        s.normal(book).unwrap().normal(book).unwrap().rwts == s.normal(book).unwrap().rwts,
{
    lemma_normal_is_normal(s, book, u64::MAX as nat);
    lemma_normal_fixed(s.normal(book).unwrap(), book);
}

} // verus!
