//! Rewrites are local: a rewrite changes nothing but the two agents of its
//! pair, the agents it makes, and the ports that the ports of the pair held.

use vstd::prelude::*;
use crate::book::{lemma_instantiate_wf, TemplateState};
use crate::error::Error;
use crate::wires::lemma_instantiate_slots;
use crate::laws::{lemma_allocate4, lemma_fill_keeps};
use crate::net::{lemma_link_wf, lemma_release_wf, lemma_write_wf, NetState};
use crate::ptr::Ptr;
use crate::rules::{annihilates, compute, expands, flip};

verus! {

/// Whether `p` is a port of the agent at `a` or of the agent at `b`.
pub open spec fn on(p: Ptr, a: u64, b: u64) -> bool {
    (p is Aux1 || p is Aux2) && (p.val() == a || p.val() == b)
}

/// Whether `p` is near the agents at `a` and `b`: one of their ports, or
/// what one of their ports holds.
pub open spec fn near(s: NetState, a: u64, b: u64, p: Ptr) -> bool {
    ||| on(p, a, b)
    ||| p == s.nodes[a as int].p1
    ||| p == s.nodes[a as int].p2
    ||| p == s.nodes[b as int].p1
    ||| p == s.nodes[b as int].p2
}

/// Whether `t` is `s` but for the ports near the agents at `a` and `b`,
/// for agents that were not live in `s`, and for more pending pairs.
pub open spec fn local(s: NetState, t: NetState, a: u64, b: u64) -> bool {
    &&& forall|p: Ptr|
        #![trigger s.is_port(p)]
        #![trigger t.get(p)]
        s.is_port(p) && !near(s, a, b, p) ==> t.is_port(p) && t.get(p) == s.get(p)
    &&& s.acts.len() <= t.acts.len()
    &&& forall|k: int| 0 <= k < s.acts.len() ==> t.acts[k] == #[trigger] s.acts[k]
}

/// Whether, on the way from `s` to `t`, the change has been local and the
/// ports of the pair hold agents or ports near the pair.
pub open spec fn on_the_way(s: NetState, t: NetState, a: u64, b: u64) -> bool {
    &&& t.wf()
    &&& local(s, t, a, b)
    &&& forall|x: u64| s.is_live(x) && x != a && x != b ==> t.is_live(x)
    &&& forall|p: Ptr|
        #![trigger t.get(p)]
        on(p, a, b) && t.is_port(p) && t.get(p).unwrap().is_var() ==> near(s, a, b, t.get(p).unwrap())
}

/// Joining two pointers changes no port but them.
pub proof fn lemma_link_frame(s: NetState, x: Ptr, y: Ptr)
    requires
        s.wf(),
        s.link(x, y) is Ok,
    ensures
        forall|p: Ptr|
            p != x && p != y ==> s.link(x, y).unwrap().get(p) == s.get(p),
        x.is_var() && x != y ==> s.link(x, y).unwrap().get(x) == Some(y),
        y.is_var() ==> s.link(x, y).unwrap().get(y) == Some(x),
        s.acts.len() <= s.link(x, y).unwrap().acts.len(),
        forall|k: int| 0 <= k < s.acts.len() ==> s.link(x, y).unwrap().acts[k] == #[trigger] s.acts[k],
{
    lemma_link_wf(s, x, y);
    if x.is_var() {
        lemma_write_wf(s, x, y);
        if y.is_var() {
            lemma_write_wf(s.write(x, y).unwrap(), y, x);
        }
    } else if y.is_var() {
        lemma_write_wf(s, y, x);
    }
}

/// Joining two pointers that are agents or near the pair keeps the change
/// local.
pub proof fn lemma_link_local(s: NetState, t: NetState, a: u64, b: u64, x: Ptr, y: Ptr)
    requires
        on_the_way(s, t, a, b),
        x.is_var() ==> near(s, a, b, x),
        y.is_var() ==> near(s, a, b, y),
        t.link(x, y) is Ok,
    ensures
        on_the_way(s, t.link(x, y).unwrap(), a, b),
{
    let u = t.link(x, y).unwrap();
    lemma_link_wf(t, x, y);
    lemma_link_frame(t, x, y);
    assert forall|p: Ptr|
        #![trigger s.is_port(p)]
        #![trigger u.get(p)]
        s.is_port(p) && !near(s, a, b, p) implies u.is_port(p) && u.get(p) == s.get(p) by {
        assert(t.is_port(p));
    }
    assert forall|k: int| 0 <= k < s.acts.len() implies u.acts[k] == #[trigger] s.acts[k] by {
        assert(t.acts[k] == s.acts[k]);
    }
    assert forall|p: Ptr|
        #![trigger u.get(p)]
        on(p, a, b) && u.is_port(p) && u.get(p).unwrap().is_var() implies near(
        s,
        a,
        b,
        u.get(p).unwrap(),
    ) by {
        assert(t.is_port(p));
        if p != x && p != y {
            assert(u.get(p) == t.get(p));
        }
    }
    assert forall|z: u64| s.is_live(z) && z != a && z != b implies u.is_live(z) by {
        assert(t.is_live(z));
    }
}

/// Removing an agent of the pair keeps the change local.
pub proof fn lemma_release_local(s: NetState, t: NetState, a: u64, b: u64, x: u64)
    requires
        on_the_way(s, t, a, b),
        x == a || x == b,
        t.release(x) is Ok,
    ensures
        on_the_way(s, t.release(x).unwrap(), a, b),
{
    let u = t.release(x).unwrap();
    lemma_release_wf(t, x);
    assert forall|p: Ptr|
        #![trigger s.is_port(p)]
        #![trigger u.get(p)]
        s.is_port(p) && !near(s, a, b, p) implies u.is_port(p) && u.get(p) == s.get(p) by {
        assert(t.is_port(p));
    }
    assert forall|p: Ptr|
        #![trigger u.get(p)]
        on(p, a, b) && u.is_port(p) && u.get(p).unwrap().is_var() implies near(
        s,
        a,
        b,
        u.get(p).unwrap(),
    ) by {
        assert(t.is_port(p));
        assert(u.get(p) == t.get(p));
    }
}

/// At its start a rewrite is on its way.
pub proof fn lemma_start_local(s: NetState, a: u64, b: u64)
    requires
        s.wf(),
    ensures
        on_the_way(s, s, a, b),
{
}

/// Joining what a port of the pair holds with an agent keeps the change
/// local.
pub proof fn lemma_wire_local(s: NetState, t: NetState, a: u64, b: u64, p: Ptr, v: Ptr)
    requires
        on_the_way(s, t, a, b),
        on(p, a, b),
        !v.is_var(),
        t.wire(p, v) is Ok,
    ensures
        on_the_way(s, t.wire(p, v).unwrap(), a, b),
{
    let x = t.read(p).unwrap();
    assert(t.get(p) == Some(x));
    lemma_link_local(s, t, a, b, x, v);
}

/// Joining what two ports of the pair hold keeps the change local.
pub proof fn lemma_join_local(s: NetState, t: NetState, a: u64, b: u64, p: Ptr, q: Ptr)
    requires
        on_the_way(s, t, a, b),
        on(p, a, b),
        on(q, a, b),
        t.join(p, q) is Ok,
    ensures
        on_the_way(s, t.join(p, q).unwrap(), a, b),
{
    let x = t.read(p).unwrap();
    let y = t.read(q).unwrap();
    assert(t.get(p) == Some(x));
    assert(t.get(q) == Some(y));
    lemma_link_local(s, t, a, b, x, y);
}

/// Setting the ports of an agent that was not live at the start keeps the
/// change local.
pub proof fn lemma_fill_local(s: NetState, t: NetState, a: u64, b: u64, x: u64, p1: Ptr, p2: Ptr)
    requires
        on_the_way(s, t, a, b),
        !s.is_live(x),
        x != a,
        x != b,
        t.fill(x, p1, p2) is Ok,
    ensures
        on_the_way(s, t.fill(x, p1, p2).unwrap(), a, b),
{
    let u = t.fill(x, p1, p2).unwrap();
    lemma_fill_keeps(t, x, p1, p2);
    assert forall|p: Ptr|
        #![trigger s.is_port(p)]
        #![trigger u.get(p)]
        s.is_port(p) && !near(s, a, b, p) implies u.is_port(p) && u.get(p) == s.get(p) by {
        assert(t.is_port(p));
    }
    assert forall|p: Ptr|
        #![trigger u.get(p)]
        on(p, a, b) && u.is_port(p) && u.get(p).unwrap().is_var() implies near(
        s,
        a,
        b,
        u.get(p).unwrap(),
    ) by {
        assert(t.is_port(p));
        assert(u.get(p) == t.get(p));
    }
}

/// Annihilation is local.
pub proof fn lemma_annihilate_local(s: NetState, a: u64, b: u64)
    requires
        s.wf(),
        s.annihilate(a, b) is Ok,
    ensures
        local(s, s.annihilate(a, b).unwrap(), a, b),
{
    reveal(NetState::annihilate);
    lemma_start_local(s, a, b);
    let s1 = s.join(Ptr::Aux1(a), Ptr::Aux1(b)).unwrap();
    lemma_join_local(s, s, a, b, Ptr::Aux1(a), Ptr::Aux1(b));
    let s2 = s1.join(Ptr::Aux2(a), Ptr::Aux2(b)).unwrap();
    lemma_join_local(s, s1, a, b, Ptr::Aux2(a), Ptr::Aux2(b));
    let s3 = s2.release(a).unwrap();
    lemma_release_local(s, s2, a, b, a);
    lemma_release_local(s, s3, a, b, b);
}

/// Erasure is local.
pub proof fn lemma_erase_local(s: NetState, n: Ptr, addr: u64)
    requires
        s.wf(),
        !n.is_var(),
        s.erase(n, addr) is Ok,
    ensures
        local(s, s.erase(n, addr).unwrap(), addr, addr),
{
    reveal(NetState::erase);
    lemma_start_local(s, addr, addr);
    let s1 = s.wire(Ptr::Aux1(addr), n).unwrap();
    lemma_wire_local(s, s, addr, addr, Ptr::Aux1(addr), n);
    let s2 = s1.wire(Ptr::Aux2(addr), n).unwrap();
    lemma_wire_local(s, s1, addr, addr, Ptr::Aux2(addr), n);
    lemma_release_local(s, s2, addr, addr, addr);
}

/// A numeral that meets an operator changes the net locally.
pub proof fn lemma_arith_local(s: NetState, op: u32, addr: u64, n: u64)
    requires
        s.wf(),
        s.arith(op, addr, n) is Ok,
    ensures
        local(s, s.arith(op, addr, n).unwrap(), addr, addr),
{
    reveal(NetState::arith);
    lemma_start_local(s, addr, addr);
    let px = Ptr::Aux1(addr);
    match s.read(px).unwrap() {
        Ptr::Num(m) => {
            let v = Ptr::Num(compute(op, n, m));
            lemma_wire_local(s, s, addr, addr, Ptr::Aux2(addr), v);
            lemma_release_local(s, s.wire(Ptr::Aux2(addr), v).unwrap(), addr, addr, addr);
        },
        x => {
            let s1 = s.write(px, Ptr::Num(n)).unwrap();
            lemma_write_wf(s, px, Ptr::Num(n));
            assert(on_the_way(s, s1, addr, addr)) by {
                assert forall|p: Ptr|
                    #![trigger s.is_port(p)]
                    #![trigger s1.get(p)]
                    s.is_port(p) && !near(s, addr, addr, p) implies s1.is_port(p) && s1.get(p)
                    == s.get(p) by {}
            }
            lemma_link_local(s, s1, addr, addr, x, Ptr::Opr(flip(op), addr));
        },
    }
}

/// Commutation is local: beyond the pair and the ports around it, it
/// changes only slots that were free.
#[verifier::rlimit(40)]
pub proof fn lemma_commute_local(s: NetState, a: Ptr, b: Ptr)
    requires
        s.wf(),
        a.is_ctr(),
        b.is_ctr(),
        s.commute(a, b) is Ok,
    ensures
        local(s, s.commute(a, b).unwrap(), a.val(), b.val()),
{
    reveal(NetState::commute);
    let x = a.val();
    let y = b.val();
    let (s1, (b1, b2, a1, a2)) = s.allocate4().unwrap();
    lemma_allocate4(s);
    assert(on_the_way(s, s1, x, y)) by {
        assert forall|p: Ptr|
            #![trigger s.is_port(p)]
            #![trigger s1.get(p)]
            s.is_port(p) && !near(s, x, y, p) implies s1.is_port(p) && s1.get(p) == s.get(p) by {}
        assert forall|p: Ptr|
            #![trigger s1.get(p)]
            on(p, x, y) && s1.is_port(p) && s1.get(p).unwrap().is_var() implies near(
            s,
            x,
            y,
            s1.get(p).unwrap(),
        ) by {
            assert(s.is_port(p));
        }
    }
    let t1 = s1.wire(Ptr::Aux1(x), b.at(b1)).unwrap();
    lemma_wire_local(s, s1, x, y, Ptr::Aux1(x), b.at(b1));
    let t2 = t1.wire(Ptr::Aux1(y), a.at(a1)).unwrap();
    lemma_wire_local(s, t1, x, y, Ptr::Aux1(y), a.at(a1));
    let t3 = t2.wire(Ptr::Aux2(x), b.at(b2)).unwrap();
    lemma_wire_local(s, t2, x, y, Ptr::Aux2(x), b.at(b2));
    let s2 = t3.wire(Ptr::Aux2(y), a.at(a2)).unwrap();
    lemma_wire_local(s, t3, x, y, Ptr::Aux2(y), a.at(a2));
    assert(s1.pass(a, b, b1, b2, a1, a2) == Ok::<NetState, Error>(s2));
    let m1 = s2.fill(b1, Ptr::Aux1(a1), Ptr::Aux1(a2)).unwrap();
    lemma_fill_local(s, s2, x, y, b1, Ptr::Aux1(a1), Ptr::Aux1(a2));
    let m2 = m1.fill(b2, Ptr::Aux2(a1), Ptr::Aux2(a2)).unwrap();
    lemma_fill_local(s, m1, x, y, b2, Ptr::Aux2(a1), Ptr::Aux2(a2));
    let m3 = m2.fill(a1, Ptr::Aux1(b1), Ptr::Aux1(b2)).unwrap();
    lemma_fill_local(s, m2, x, y, a1, Ptr::Aux1(b1), Ptr::Aux1(b2));
    let s3 = m3.fill(a2, Ptr::Aux2(b1), Ptr::Aux2(b2)).unwrap();
    lemma_fill_local(s, m3, x, y, a2, Ptr::Aux2(b1), Ptr::Aux2(b2));
    let s4 = s3.release(x).unwrap();
    lemma_release_local(s, s3, x, y, x);
    lemma_release_local(s, s4, x, y, y);
}

/// Expanding a reference changes no port of the net: it fills free slots
/// and adds pending pairs.
pub proof fn lemma_unfold_local(s: NetState, book: Map<u64, TemplateState>, name: u64, other: Ptr)
    requires
        s.wf(),
        book.contains_key(name) ==> book[name].closed(),
        !other.is_var(),
        s.unfold(book, name, other) is Ok,
    ensures
        forall|p: Ptr|
            s.is_port(p) ==> s.unfold(book, name, other).unwrap().is_port(p) && s.unfold(
                book,
                name,
                other,
            ).unwrap().get(p) == s.get(p),
        s.acts.len() <= s.unfold(book, name, other).unwrap().acts.len(),
        forall|k: int|
            0 <= k < s.acts.len() ==> s.unfold(book, name, other).unwrap().acts[k] == #[trigger] s.acts[k],
{
    reveal(NetState::deref);
    let d = NetState { dref: (s.dref + 1) as u64, ..s };
    let tm = book[name];
    let locs = tm.places(d.free);
    let (s1, r) = d.instantiate(tm).unwrap();
    lemma_instantiate_slots(d, tm);
    lemma_instantiate_wf(d, tm);
    crate::net::lemma_free_fits(d);
    let t = s1.link(r, other).unwrap();
    lemma_link_wf(s1, r, other);
    lemma_link_frame(s1, r, other);
    assert forall|p: Ptr| s.is_port(p) implies s1.is_port(p) && s1.get(p) == s.get(p) by {
        if !(p is Root) {
            let j = p.val() as int;
            assert(forall|i: int| 0 <= i < locs.len() ==> locs[i] != j);
            assert(s1.nodes[j] == d.nodes[j]);
        }
    }
    assert(book.contains_key(name));
    if r.is_var() {
        let kr = tm.root.val() as int;
        assert(0 <= kr < locs.len());
        assert(r == tm.root.at(locs[kr]));
        assert(!d.is_live(locs[kr]));
    }
    assert forall|p: Ptr| s.is_port(p) implies t.is_port(p) && t.get(p) == s.get(p) by {
        assert(s1.is_port(p) && s1.get(p) == s.get(p));
        assert(p != r);
        assert(p != other);
    }
    assert forall|k: int| 0 <= k < s.acts.len() implies t.acts[k] == #[trigger] s.acts[k] by {
        assert(s1.acts[k] == s.acts[k]);
    }
}

/// The two-port agents of a pair: where one side has no ports, the other
/// side's agent stands for both.
pub open spec fn seats(a: Ptr, b: Ptr) -> (u64, u64) {
    (
        if a.is_ctr() {
            a.val()
        } else {
            b.val()
        },
        if b.is_ctr() {
            b.val()
        } else {
            a.val()
        },
    )
}

/// Rewrites are local: one rewrite of a pair changes no port but those of
/// the pair's two agents and the ports that these held, and no pending
/// pair; beyond that it fills slots that were free and adds pending pairs.
pub proof fn lemma_rewrite_local(s: NetState, book: Map<u64, TemplateState>, a: Ptr, b: Ptr)
    requires
        s.wf(),
        forall|name: u64| #[trigger] book.contains_key(name) ==> book[name].closed(),
        s.step(book, a, b) is Ok,
    ensures
        local(s, s.step(book, a, b).unwrap(), seats(a, b).0, seats(a, b).1),
{
    reveal(NetState::step);
    let s0 = NetState { rwts: (s.rwts + 1) as u64, ..s };
    let t = s.step(book, a, b).unwrap();
    let (x, y) = seats(a, b);
    if expands(a, b) {
        lemma_unfold_local(s0, book, a.val(), b);
    } else if expands(b, a) {
        lemma_unfold_local(s0, book, b.val(), a);
    } else if a.is_nul() && b.is_nul() {
    } else if a.is_nul() {
        lemma_absorb_local(s0, a, b);
    } else if b.is_nul() {
        lemma_absorb_local(s0, b, a);
    } else if annihilates(a, b) {
        lemma_annihilate_local(s0, a.val(), b.val());
    } else {
        lemma_commute_local(s0, a, b);
    }
    assert forall|p: Ptr|
        #![trigger s.is_port(p)]
        #![trigger t.get(p)]
        s.is_port(p) && !near(s, x, y, p) implies t.is_port(p) && t.get(p) == s.get(p) by {
        assert(s0.is_port(p));
        assert(!near(s0, x, y, p));
    }
    assert forall|k: int| 0 <= k < s.acts.len() implies t.acts[k] == #[trigger] s.acts[k] by {
        assert(s0.acts[k] == s.acts[k]);
    }
}

/// An agent without ports that meets a two-port agent changes the net
/// locally.
pub proof fn lemma_absorb_local(s: NetState, n: Ptr, c: Ptr)
    requires
        s.wf(),
        n.is_nul(),
        c.is_ctr(),
        s.absorb(n, c) is Ok,
    ensures
        local(s, s.absorb(n, c).unwrap(), c.val(), c.val()),
{
    match (n, c) {
        (Ptr::Num(v), Ptr::Opr(op, addr)) => {
            lemma_arith_local(s, op, addr, v);
        },
        _ => {
            lemma_erase_local(s, n, c.val());
        },
    }
}

} // verus!
