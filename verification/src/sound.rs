//! Ownership: every two-port agent that is pointed to is live, and is
//! pointed to from one place only. The rewrite rules keep it so, and on a
//! net that is sound in this way no rewrite finds a pointer out of range.

use vstd::prelude::*;
use crate::book::{lemma_instantiate_wf, reloc, reloc_node, TemplateState};
use crate::wires::{lemma_instantiate_slots, lemma_instantiate_wired, loose_end};
use crate::laws::{lemma_fill_keeps, lemma_join_keeps, lemma_mesh_keeps, lemma_wire_keeps};
use crate::net::{lemma_alloc_wf, lemma_link_wf, lemma_release_wf, lemma_write_wf, NetState};
use crate::ptr::Ptr;
use crate::error::Error;
use crate::rules::{annihilates, compute, expands, flip};
use crate::wires::{
    lemma_allocate_wired, lemma_join_cuts, lemma_mesh_wired, lemma_release_cut, lemma_wire_cuts,
    holds_agents, wire_at, wired_but,
};

verus! {

/// A place that holds a pointer: a port, or one side of a pending pair.
pub enum Holder {
    Port(Ptr),
    Fst(int),
    Snd(int),
}

/// What the holder `h` holds, if it exists in `s`.
pub open spec fn held(s: NetState, h: Holder) -> Option<Ptr> {
    match h {
        Holder::Port(p) => if s.is_port(p) {
            s.get(p)
        } else {
            None
        },
        Holder::Fst(k) => if 0 <= k < s.acts.len() {
            Some(s.acts[k].0)
        } else {
            None
        },
        Holder::Snd(k) => if 0 <= k < s.acts.len() {
            Some(s.acts[k].1)
        } else {
            None
        },
    }
}

/// Whether `h` is a port in `cut`.
pub open spec fn in_cut(cut: Set<Ptr>, h: Holder) -> bool {
    match h {
        Holder::Port(p) => cut.contains(p),
        _ => false,
    }
}

/// Whether `h`, a holder outside `cut`, holds the principal port of the
/// two-port agent at `a`.
pub open spec fn owns(s: NetState, cut: Set<Ptr>, h: Holder, a: u64) -> bool {
    held(s, h) matches Some(q) && q.is_ctr() && q.val() == a && !in_cut(cut, h)
}

/// Whether, outside `cut`, every agent that is pointed to is live, is not
/// one of those in `loose` (the agents that a rewrite has in hand), and is
/// pointed to from one place only; and the pending pairs are made of agents.
pub open spec fn owned_but(s: NetState, cut: Set<Ptr>, loose: Set<u64>) -> bool {
    &&& forall|h: Holder, a: u64| #[trigger] owns(s, cut, h, a) ==> s.is_live(a) && !loose.contains(a)
    &&& forall|h1: Holder, h2: Holder, a: u64|
        #[trigger] owns(s, cut, h1, a) && #[trigger] owns(s, cut, h2, a) ==> h1 == h2
    &&& forall|k: int|
        0 <= k < s.acts.len() ==> !(#[trigger] s.acts[k]).0.is_var() && !s.acts[k].1.is_var()
}

/// The agent that `v` points to is no longer in hand.
pub open spec fn given(loose: Set<u64>, v: Ptr) -> Set<u64> {
    if v.is_ctr() {
        loose.remove(v.val())
    } else {
        loose
    }
}

/// Whether the agent that `v` points to, if any, is live and in hand.
pub open spec fn in_hand(s: NetState, loose: Set<u64>, v: Ptr) -> bool {
    !v.is_var() && (v.is_ctr() ==> s.is_live(v.val()) && loose.contains(v.val()))
}

/// Joining what a port holds with an agent in hand hands the agent over:
/// it is then pointed to from where the port's content was pointed to.
#[verifier::rlimit(40)]
pub proof fn lemma_wire_owned(s: NetState, cut: Set<Ptr>, loose: Set<u64>, px: Ptr, v: Ptr)
    requires
        s.wf(),
        wired_but(s, cut),
        owned_but(s, cut, loose),
        !cut.contains(px),
        in_hand(s, loose, v),
        s.wire(px, v) is Ok,
    ensures
        owned_but(s.wire(px, v).unwrap(), cut.insert(px), given(loose, v)),
{
    let x = s.read(px).unwrap();
    let t = s.wire(px, v).unwrap();
    let c2 = cut.insert(px);
    let l2 = given(loose, v);
    let n = s.acts.len() as int;
    lemma_wire_keeps(s, px, v);
    assert(s.is_port(px));
    assert(wire_at(s, px));
    if x.is_var() {
        lemma_write_wf(s, x, v);
    }
    assert forall|h: Holder, a: u64| #[trigger] owns(t, c2, h, a) implies t.is_live(a)
        && !l2.contains(a) by {
        lemma_wire_from(s, cut, px, v, h, a);
        if h != Holder::Port(x) && h != Holder::Fst(n) && h != Holder::Snd(n) {
            assert(owns(s, cut, h, a));
        } else if h == Holder::Fst(n) {
            assert(owns(s, cut, Holder::Port(px), a));
        }
    }
    assert forall|h1: Holder, h2: Holder, a: u64|
        #[trigger] owns(t, c2, h1, a) && #[trigger] owns(t, c2, h2, a) implies h1 == h2 by {
        lemma_wire_from(s, cut, px, v, h1, a);
        lemma_wire_from(s, cut, px, v, h2, a);
        if owns(s, cut, h1, a) && owns(s, cut, h2, a) {
        } else if owns(s, cut, h1, a) {
            if a == x.val() && x.is_ctr() {
                assert(owns(s, cut, Holder::Port(px), a));
            }
        } else if owns(s, cut, h2, a) {
            if a == x.val() && x.is_ctr() {
                assert(owns(s, cut, Holder::Port(px), a));
            }
        } else {
            if x.is_ctr() && v.is_ctr() && x.val() == v.val() {
                assert(owns(s, cut, Holder::Port(px), x.val()));
            }
        }
    }
    assert forall|k: int| 0 <= k < t.acts.len() implies !(#[trigger] t.acts[k]).0.is_var()
        && !t.acts[k].1.is_var() by {
        if k < n {
            assert(t.acts[k] == s.acts[k]);
        }
    }
}

/// Where a pointer to an agent can be found after a port's content was
/// joined with `v`: where it was before, or where `v` went, or, as one side
/// of the new pair, where the port's content went.
#[verifier::rlimit(40)]
pub proof fn lemma_wire_from(s: NetState, cut: Set<Ptr>, px: Ptr, v: Ptr, h: Holder, a: u64)
    requires
        s.wf(),
        wired_but(s, cut),
        !cut.contains(px),
        !v.is_var(),
        s.wire(px, v) is Ok,
        owns(s.wire(px, v).unwrap(), cut.insert(px), h, a),
    ensures
        ({
            let x = s.read(px).unwrap();
            let n = s.acts.len() as int;
            ||| (owns(s, cut, h, a) && h != Holder::Port(px) && h != Holder::Port(x))
            ||| (x.is_var() && h == Holder::Port(x) && v.is_ctr() && a == v.val())
            ||| (!x.is_var() && h == Holder::Fst(n) && x.is_ctr() && a == x.val())
            ||| (!x.is_var() && h == Holder::Snd(n) && v.is_ctr() && a == v.val())
        }),
{
    let x = s.read(px).unwrap();
    let t = s.wire(px, v).unwrap();
    let n = s.acts.len() as int;
    lemma_wire_keeps(s, px, v);
    assert(s.is_port(px));
    assert(wire_at(s, px));
    if x.is_var() {
        lemma_write_wf(s, x, v);
    }
    match h {
        Holder::Port(p) => {
            assert(s.is_port(p));
        },
        Holder::Fst(k) => {
            if k < n {
                assert(t.acts[k] == s.acts[k]);
            }
        },
        Holder::Snd(k) => {
            if k < n {
                assert(t.acts[k] == s.acts[k]);
            }
        },
    }
}

/// Where a pointer to an agent can be found after the contents of two
/// ports were joined: where it was before, or where the content of the
/// other port went.
#[verifier::rlimit(40)]
pub proof fn lemma_join_from(s: NetState, cut: Set<Ptr>, px: Ptr, py: Ptr, h: Holder, a: u64)
    requires
        s.wf(),
        wired_but(s, cut),
        !cut.contains(px),
        !cut.contains(py),
        px != py,
        s.join(px, py) is Ok,
        owns(s.join(px, py).unwrap(), cut.insert(px).insert(py), h, a),
    ensures
        ({
            let x = s.read(px).unwrap();
            let y = s.read(py).unwrap();
            let n = s.acts.len() as int;
            ||| (owns(s, cut, h, a) && h != Holder::Port(px) && h != Holder::Port(py) && h
                != Holder::Port(x) && h != Holder::Port(y))
            ||| (x.is_var() && h == Holder::Port(x) && y.is_ctr() && a == y.val())
            ||| (y.is_var() && h == Holder::Port(y) && x.is_ctr() && a == x.val())
            ||| (!x.is_var() && !y.is_var() && h == Holder::Fst(n) && x.is_ctr() && a == x.val())
            ||| (!x.is_var() && !y.is_var() && h == Holder::Snd(n) && y.is_ctr() && a == y.val())
        }),
{
    let x = s.read(px).unwrap();
    let y = s.read(py).unwrap();
    let t = s.join(px, py).unwrap();
    let n = s.acts.len() as int;
    lemma_join_keeps(s, px, py);
    assert(s.is_port(px) && s.is_port(py));
    assert(wire_at(s, px) && wire_at(s, py));
    if x.is_var() {
        lemma_write_wf(s, x, y);
        if y.is_var() {
            lemma_write_wf(s.write(x, y).unwrap(), y, x);
        }
    } else if y.is_var() {
        lemma_write_wf(s, y, x);
    }
    match h {
        Holder::Port(p) => {
            assert(s.is_port(p));
        },
        Holder::Fst(k) => {
            if k < n {
                assert(t.acts[k] == s.acts[k]);
            }
        },
        Holder::Snd(k) => {
            if k < n {
                assert(t.acts[k] == s.acts[k]);
            }
        },
    }
}

/// Joining the contents of two ports keeps every agent pointed to from one
/// place: what pointed from a port now points from where the other port's
/// content was.
#[verifier::rlimit(40)]
pub proof fn lemma_join_owned(s: NetState, cut: Set<Ptr>, loose: Set<u64>, px: Ptr, py: Ptr)
    requires
        s.wf(),
        wired_but(s, cut),
        owned_but(s, cut, loose),
        !cut.contains(px),
        !cut.contains(py),
        px != py,
        s.join(px, py) is Ok,
    ensures
        owned_but(s.join(px, py).unwrap(), cut.insert(px).insert(py), loose),
{
    let x = s.read(px).unwrap();
    let y = s.read(py).unwrap();
    let t = s.join(px, py).unwrap();
    let c2 = cut.insert(px).insert(py);
    let n = s.acts.len() as int;
    lemma_join_keeps(s, px, py);
    assert(s.is_port(px) && s.is_port(py));
    if x.is_ctr() {
        assert(owns(s, cut, Holder::Port(px), x.val()));
    }
    if y.is_ctr() {
        assert(owns(s, cut, Holder::Port(py), y.val()));
    }
    assert forall|h: Holder, a: u64| #[trigger] owns(t, c2, h, a) implies t.is_live(a)
        && !loose.contains(a) by {
        lemma_join_from(s, cut, px, py, h, a);
    }
    assert forall|h1: Holder, h2: Holder, a: u64|
        #[trigger] owns(t, c2, h1, a) && #[trigger] owns(t, c2, h2, a) implies h1 == h2 by {
        lemma_join_from(s, cut, px, py, h1, a);
        lemma_join_from(s, cut, px, py, h2, a);
    }
    assert forall|k: int| 0 <= k < t.acts.len() implies !(#[trigger] t.acts[k]).0.is_var()
        && !t.acts[k].1.is_var() by {
        if k < n {
            assert(t.acts[k] == s.acts[k]);
        }
    }
}

/// Removing an agent in hand whose ports are detached leaves the rest as
/// it was.
pub proof fn lemma_release_owned(s: NetState, cut: Set<Ptr>, loose: Set<u64>, a: u64)
    requires
        s.wf(),
        owned_but(s, cut, loose),
        cut.contains(Ptr::Aux1(a)),
        cut.contains(Ptr::Aux2(a)),
        loose.contains(a),
        s.release(a) is Ok,
    ensures
        owned_but(
            s.release(a).unwrap(),
            cut.remove(Ptr::Aux1(a)).remove(Ptr::Aux2(a)),
            loose.remove(a),
        ),
{
    let t = s.release(a).unwrap();
    let c2 = cut.remove(Ptr::Aux1(a)).remove(Ptr::Aux2(a));
    let l2 = loose.remove(a);
    lemma_release_wf(s, a);
    assert forall|h: Holder, x: u64| owns(t, c2, h, x) implies owns(s, cut, h, x) by {
        match h {
            Holder::Port(p) => {
                assert(s.is_port(p));
            },
            _ => {},
        }
    }
    assert forall|h: Holder, x: u64| #[trigger] owns(t, c2, h, x) implies t.is_live(x)
        && !l2.contains(x) by {
        assert(owns(s, cut, h, x));
    }
    assert forall|h1: Holder, h2: Holder, x: u64|
        #[trigger] owns(t, c2, h1, x) && #[trigger] owns(t, c2, h2, x) implies h1 == h2 by {
        assert(owns(s, cut, h1, x));
        assert(owns(s, cut, h2, x));
    }
}

/// A new agent is in hand.
pub proof fn lemma_allocate_owned(s: NetState, cut: Set<Ptr>, loose: Set<u64>)
    requires
        s.wf(),
        owned_but(s, cut, loose),
        s.allocate() is Ok,
    ensures
        owned_but(s.allocate().unwrap().0, cut, loose.insert(s.allocate().unwrap().1)),
{
    let (t, a) = s.allocate().unwrap();
    let l2 = loose.insert(a);
    lemma_alloc_wf(s);
    assert forall|h: Holder, x: u64| owns(t, cut, h, x) implies owns(s, cut, h, x) by {
        match h {
            Holder::Port(p) => {
                if p != Ptr::Aux1(a) && p != Ptr::Aux2(a) {
                    assert(s.is_port(p));
                }
            },
            _ => {},
        }
    }
    assert forall|h: Holder, x: u64| #[trigger] owns(t, cut, h, x) implies t.is_live(x)
        && !l2.contains(x) by {
        assert(owns(s, cut, h, x));
    }
    assert forall|h1: Holder, h2: Holder, x: u64|
        #[trigger] owns(t, cut, h1, x) && #[trigger] owns(t, cut, h2, x) implies h1 == h2 by {
        assert(owns(s, cut, h1, x));
        assert(owns(s, cut, h2, x));
    }
}

/// Setting the ports of an agent to ports changes no ownership.
pub proof fn lemma_fill_owned(s: NetState, cut: Set<Ptr>, loose: Set<u64>, a: u64, p1: Ptr, p2: Ptr)
    requires
        s.wf(),
        owned_but(s, cut, loose),
        p1.is_var(),
        p2.is_var(),
        s.fill(a, p1, p2) is Ok,
    ensures
        owned_but(s.fill(a, p1, p2).unwrap(), cut, loose),
{
    let t = s.fill(a, p1, p2).unwrap();
    lemma_fill_keeps(s, a, p1, p2);
    assert forall|h: Holder, x: u64| owns(t, cut, h, x) implies owns(s, cut, h, x) by {
        match h {
            Holder::Port(p) => {
                assert(s.is_port(p));
            },
            _ => {},
        }
    }
    assert forall|h: Holder, x: u64| #[trigger] owns(t, cut, h, x) implies t.is_live(x)
        && !loose.contains(x) by {
        assert(owns(s, cut, h, x));
    }
    assert forall|h1: Holder, h2: Holder, x: u64|
        #[trigger] owns(t, cut, h1, x) && #[trigger] owns(t, cut, h2, x) implies h1 == h2 by {
        assert(owns(s, cut, h1, x));
        assert(owns(s, cut, h2, x));
    }
}

/// Whether the net is sound outside `cut`, with the agents in `loose` in
/// hand: the free list is right, the wires are sound, and every agent that
/// is pointed to is live and pointed to from one place only.
pub open spec fn sound_but(s: NetState, cut: Set<Ptr>, loose: Set<u64>) -> bool {
    &&& s.wf()
    &&& wired_but(s, cut)
    &&& owned_but(s, cut, loose)
    &&& forall|p: Ptr| #[trigger] cut.contains(p) ==> p.is_var()
}

/// Whether the net is sound: the free list is right, every port that
/// holds a port is one end of a wire, every two-port agent that is pointed
/// to is live and pointed to from one place only, and the pending pairs are
/// made of agents.
pub open spec fn sound(s: NetState) -> bool {
    sound_but(s, Set::empty(), Set::empty())
}

/// Whether `t` has the live agents and the counters of `s`.
pub open spec fn same_agents(s: NetState, t: NetState) -> bool {
    &&& t.free == s.free
    &&& t.nodes.len() == s.nodes.len()
    &&& t.rwts == s.rwts
    &&& t.dref == s.dref
    &&& forall|x: u64| t.is_live(x) == s.is_live(x)
}

/// On a sound net, joining the contents of two ports succeeds and leaves
/// the net sound, with the two ports detached.
pub proof fn lemma_join_sound(s: NetState, cut: Set<Ptr>, loose: Set<u64>, px: Ptr, py: Ptr)
    requires
        sound_but(s, cut, loose),
        s.is_port(px),
        s.is_port(py),
        !cut.contains(px),
        !cut.contains(py),
        px != py,
    ensures
        s.join(px, py) is Ok,
        sound_but(s.join(px, py).unwrap(), cut.insert(px).insert(py), loose),
        same_agents(s, s.join(px, py).unwrap()),
{
    let x = s.read(px).unwrap();
    let y = s.read(py).unwrap();
    assert(wire_at(s, px) && wire_at(s, py));
    if x.is_var() {
        lemma_write_wf(s, x, y);
    }
    assert(s.join(px, py) is Ok);
    lemma_join_keeps(s, px, py);
    lemma_join_cuts(s, cut, px, py);
    lemma_join_owned(s, cut, loose, px, py);
}

/// On a sound net, joining the content of a port with an agent in hand
/// succeeds and leaves the net sound, with the port detached and the agent
/// handed over.
pub proof fn lemma_wire_sound(s: NetState, cut: Set<Ptr>, loose: Set<u64>, px: Ptr, v: Ptr)
    requires
        sound_but(s, cut, loose),
        s.is_port(px),
        !cut.contains(px),
        in_hand(s, loose, v),
    ensures
        s.wire(px, v) is Ok,
        sound_but(s.wire(px, v).unwrap(), cut.insert(px), given(loose, v)),
        same_agents(s, s.wire(px, v).unwrap()),
        forall|z: u64| holds_agents(s, z) ==> holds_agents(s.wire(px, v).unwrap(), z),
{
    assert(wire_at(s, px));
    assert forall|z: u64| holds_agents(s, z) implies holds_agents(s.wire(px, v).unwrap(), z) by {
        lemma_wire_keeps(s, px, v);
        lemma_wire_cuts(s, cut, px, v);
        assert(s.is_port(Ptr::Aux1(z)) && s.is_port(Ptr::Aux2(z)));
    }
    assert(s.wire(px, v) is Ok);
    if cut.contains(v) {
        assert(v.is_var());
    }
    lemma_wire_keeps(s, px, v);
    lemma_wire_cuts(s, cut, px, v);
    lemma_wire_owned(s, cut, loose, px, v);
}

/// On a sound net, removing an agent in hand whose ports are detached
/// succeeds and leaves the net sound.
pub proof fn lemma_release_sound(s: NetState, cut: Set<Ptr>, loose: Set<u64>, a: u64)
    requires
        sound_but(s, cut, loose),
        s.is_live(a),
        cut.contains(Ptr::Aux1(a)),
        cut.contains(Ptr::Aux2(a)),
        loose.contains(a),
    ensures
        s.release(a) is Ok,
        sound_but(
            s.release(a).unwrap(),
            cut.remove(Ptr::Aux1(a)).remove(Ptr::Aux2(a)),
            loose.remove(a),
        ),
        forall|x: u64| s.release(a).unwrap().is_live(x) == (s.is_live(x) && x != a),
{
    lemma_release_wf(s, a);
    lemma_release_cut(s, cut, a);
    lemma_release_owned(s, cut, loose, a);
}

/// Annihilation on a sound net succeeds and leaves the net sound.
pub proof fn lemma_annihilate_sound(s: NetState, a: u64, b: u64)
    requires
        sound_but(s, Set::empty(), Set::empty().insert(a).insert(b)),
        s.is_live(a),
        s.is_live(b),
        a != b,
    ensures
        s.annihilate(a, b) is Ok,
        sound(s.annihilate(a, b).unwrap()),
{
    reveal(NetState::annihilate);
    let none = Set::<Ptr>::empty();
    let l0 = Set::<u64>::empty().insert(a).insert(b);
    lemma_join_sound(s, none, l0, Ptr::Aux1(a), Ptr::Aux1(b));
    let s1 = s.join(Ptr::Aux1(a), Ptr::Aux1(b)).unwrap();
    let c1 = none.insert(Ptr::Aux1(a)).insert(Ptr::Aux1(b));
    lemma_join_sound(s1, c1, l0, Ptr::Aux2(a), Ptr::Aux2(b));
    let s2 = s1.join(Ptr::Aux2(a), Ptr::Aux2(b)).unwrap();
    let c2 = c1.insert(Ptr::Aux2(a)).insert(Ptr::Aux2(b));
    lemma_release_sound(s2, c2, l0, a);
    let s3 = s2.release(a).unwrap();
    let c3 = c2.remove(Ptr::Aux1(a)).remove(Ptr::Aux2(a));
    lemma_release_sound(s3, c3, l0.remove(a), b);
    assert(c3.remove(Ptr::Aux1(b)).remove(Ptr::Aux2(b)) =~= none);
    assert(l0.remove(a).remove(b) =~= Set::<u64>::empty());
}

/// Erasure on a sound net succeeds and leaves the net sound.
pub proof fn lemma_erase_sound(s: NetState, n: Ptr, addr: u64)
    requires
        sound_but(s, Set::empty(), Set::empty().insert(addr)),
        s.is_live(addr),
        n.is_nul(),
    ensures
        s.erase(n, addr) is Ok,
        sound(s.erase(n, addr).unwrap()),
{
    reveal(NetState::erase);
    let none = Set::<Ptr>::empty();
    let l0 = Set::<u64>::empty().insert(addr);
    lemma_wire_sound(s, none, l0, Ptr::Aux1(addr), n);
    let s1 = s.wire(Ptr::Aux1(addr), n).unwrap();
    let c1 = none.insert(Ptr::Aux1(addr));
    lemma_wire_sound(s1, c1, l0, Ptr::Aux2(addr), n);
    let s2 = s1.wire(Ptr::Aux2(addr), n).unwrap();
    let c2 = c1.insert(Ptr::Aux2(addr));
    lemma_release_sound(s2, c2, l0, addr);
    assert(c2.remove(Ptr::Aux1(addr)).remove(Ptr::Aux2(addr)) =~= none);
    assert(l0.remove(addr) =~= Set::<u64>::empty());
}

/// On a sound net with a free slot, a new agent is taken and is in hand.
pub proof fn lemma_allocate_sound(s: NetState, loose: Set<u64>)
    requires
        sound_but(s, Set::empty(), loose),
        s.free.len() > 0,
    ensures
        s.allocate() is Ok,
        sound_but(s.allocate().unwrap().0, Set::empty(), loose.insert(s.allocate().unwrap().1)),
        holds_agents(s.allocate().unwrap().0, s.allocate().unwrap().1),
        !s.is_live(s.allocate().unwrap().1),
        s.allocate().unwrap().0.free.len() == s.free.len() - 1,
        forall|z: u64| holds_agents(s, z) ==> holds_agents(s.allocate().unwrap().0, z),
        forall|z: u64|
            s.allocate().unwrap().0.is_live(z) == (s.is_live(z) || z == s.allocate().unwrap().1),
{
    lemma_alloc_wf(s);
    lemma_allocate_wired(s);
    lemma_allocate_owned(s, Set::empty(), loose);
}

/// A port that holds an agent without ports can be detached at will.
pub proof fn lemma_cut_idle(s: NetState, cut: Set<Ptr>, loose: Set<u64>, p: Ptr)
    requires
        sound_but(s, cut, loose),
        s.is_port(p),
        s.get(p).unwrap().is_nul(),
    ensures
        sound_but(s, cut.insert(p), loose),
{
    let c2 = cut.insert(p);
    assert forall|q: Ptr|
        #![trigger s.is_port(q)]
        #![trigger c2.contains(q)]
        s.is_port(q) && !c2.contains(q) implies wire_at(s, q) && !c2.contains(
        s.get(q).unwrap(),
    ) by {
        assert(wire_at(s, q));
    }
    assert forall|h: Holder, x: u64| owns(s, c2, h, x) implies owns(s, cut, h, x) by {}
    assert forall|h: Holder, x: u64| #[trigger] owns(s, c2, h, x) implies s.is_live(x)
        && !loose.contains(x) by {
        assert(owns(s, cut, h, x));
    }
    assert forall|h1: Holder, h2: Holder, x: u64|
        #[trigger] owns(s, c2, h1, x) && #[trigger] owns(s, c2, h2, x) implies h1 == h2 by {
        assert(owns(s, cut, h1, x));
        assert(owns(s, cut, h2, x));
    }
}

/// A detached port that is given an agent in hand is sound again.
#[verifier::rlimit(40)]
pub proof fn lemma_reset(s: NetState, cut: Set<Ptr>, loose: Set<u64>, p: Ptr, v: Ptr)
    requires
        sound_but(s, cut, loose),
        s.is_port(p),
        cut.contains(p),
        in_hand(s, loose, v),
    ensures
        s.write(p, v) is Ok,
        sound_but(s.write(p, v).unwrap(), cut.remove(p), given(loose, v)),
        same_agents(s, s.write(p, v).unwrap()),
        s.write(p, v).unwrap().acts == s.acts,
{
    let t = s.write(p, v).unwrap();
    let c2 = cut.remove(p);
    let l2 = given(loose, v);
    lemma_write_wf(s, p, v);
    if cut.contains(v) {
        assert(v.is_var());
    }
    assert forall|q: Ptr|
        #![trigger t.is_port(q)]
        #![trigger c2.contains(q)]
        t.is_port(q) && !c2.contains(q) implies wire_at(t, q) && !c2.contains(
        t.get(q).unwrap(),
    ) by {
        assert(s.is_port(q));
        if q != p {
            assert(wire_at(s, q));
            let r = s.get(q).unwrap();
            if r.is_var() {
                assert(s.is_port(r));
            }
        }
    }
    assert forall|h: Holder, x: u64| owns(t, c2, h, x) && h != Holder::Port(p) implies owns(
        s,
        cut,
        h,
        x,
    ) by {
        match h {
            Holder::Port(q) => {
                assert(s.is_port(q));
            },
            _ => {},
        }
    }
    assert forall|h: Holder, x: u64| #[trigger] owns(t, c2, h, x) implies t.is_live(x)
        && !l2.contains(x) by {
        if h != Holder::Port(p) {
            assert(owns(s, cut, h, x));
        }
    }
    assert forall|h1: Holder, h2: Holder, x: u64|
        #[trigger] owns(t, c2, h1, x) && #[trigger] owns(t, c2, h2, x) implies h1 == h2 by {
        if h1 != Holder::Port(p) {
            assert(owns(s, cut, h1, x));
        }
        if h2 != Holder::Port(p) {
            assert(owns(s, cut, h2, x));
        }
    }
}

/// Two agents in hand that face each other become a pending pair.
#[verifier::rlimit(40)]
pub proof fn lemma_pair_sound(s: NetState, cut: Set<Ptr>, loose: Set<u64>, a: Ptr, b: Ptr)
    requires
        sound_but(s, cut, loose),
        in_hand(s, loose, a),
        in_hand(s, loose, b),
        a.is_ctr() && b.is_ctr() ==> a.val() != b.val(),
    ensures
        s.link(a, b) == Ok::<NetState, crate::error::Error>(
            NetState { acts: s.acts.push((a, b)), ..s },
        ),
        sound_but(s.link(a, b).unwrap(), cut, given(given(loose, a), b)),
        same_agents(s, s.link(a, b).unwrap()),
{
    let t = s.link(a, b).unwrap();
    let l2 = given(given(loose, a), b);
    let n = s.acts.len() as int;
    lemma_link_wf(s, a, b);
    assert(t.acts[n] == (a, b));
    assert forall|q: Ptr|
        #![trigger t.is_port(q)]
        #![trigger cut.contains(q)]
        t.is_port(q) && !cut.contains(q) implies wire_at(t, q) && !cut.contains(
        t.get(q).unwrap(),
    ) by {
        assert(s.is_port(q));
        assert(wire_at(s, q));
        let r = s.get(q).unwrap();
        if r.is_var() {
            assert(s.is_port(r));
        }
    }
    assert forall|h: Holder, x: u64|
        owns(t, cut, h, x) && h != Holder::Fst(n) && h != Holder::Snd(n) implies owns(
        s,
        cut,
        h,
        x,
    ) by {
        match h {
            Holder::Port(q) => {
                assert(s.is_port(q));
            },
            Holder::Fst(k) => {
                assert(t.acts[k] == s.acts[k]);
            },
            Holder::Snd(k) => {
                assert(t.acts[k] == s.acts[k]);
            },
        }
    }
    assert forall|h: Holder, x: u64| #[trigger] owns(t, cut, h, x) implies t.is_live(x)
        && !l2.contains(x) by {
        if h != Holder::Fst(n) && h != Holder::Snd(n) {
            assert(owns(s, cut, h, x));
        }
    }
    assert forall|h1: Holder, h2: Holder, x: u64|
        #[trigger] owns(t, cut, h1, x) && #[trigger] owns(t, cut, h2, x) implies h1 == h2 by {
        if h1 != Holder::Fst(n) && h1 != Holder::Snd(n) {
            assert(owns(s, cut, h1, x));
        }
        if h2 != Holder::Fst(n) && h2 != Holder::Snd(n) {
            assert(owns(s, cut, h2, x));
        }
    }
    assert forall|k: int| 0 <= k < t.acts.len() implies !(#[trigger] t.acts[k]).0.is_var()
        && !t.acts[k].1.is_var() by {
        if k < n {
            assert(t.acts[k] == s.acts[k]);
        }
    }
}

/// On a sound net, a numeral that meets an operator in hand is dealt with,
/// and the net stays sound.
#[verifier::rlimit(40)]
pub proof fn lemma_arith_sound(s: NetState, op: u32, addr: u64, n: u64)
    requires
        sound_but(s, Set::empty(), Set::empty().insert(addr)),
        s.is_live(addr),
    ensures
        s.arith(op, addr, n) is Ok,
        sound(s.arith(op, addr, n).unwrap()),
{
    reveal(NetState::arith);
    let none = Set::<Ptr>::empty();
    let l0 = Set::<u64>::empty().insert(addr);
    let px = Ptr::Aux1(addr);
    let py = Ptr::Aux2(addr);
    assert(s.is_port(px));
    assert(wire_at(s, px));
    match s.read(px).unwrap() {
        Ptr::Num(m) => {
            let v = Ptr::Num(compute(op, n, m));
            lemma_cut_idle(s, none, l0, px);
            let c0 = none.insert(px);
            lemma_wire_sound(s, c0, l0, py, v);
            let s1 = s.wire(py, v).unwrap();
            let c1 = c0.insert(py);
            lemma_release_sound(s1, c1, l0, addr);
            assert(c1.remove(px).remove(py) =~= none);
            assert(l0.remove(addr) =~= Set::<u64>::empty());
        },
        x => {
            let v = Ptr::Opr(flip(op), addr);
            lemma_wire_sound(s, none, l0, px, v);
            let w = s.wire(px, v).unwrap();
            let c1 = none.insert(px);
            lemma_reset(w, c1, l0.remove(addr), px, Ptr::Num(n));
            let t = w.write(px, Ptr::Num(n)).unwrap();
            assert(c1.remove(px) =~= none);
            assert(l0.remove(addr) =~= Set::<u64>::empty());
            let s1 = s.write(px, Ptr::Num(n)).unwrap();
            lemma_write_wf(s, px, Ptr::Num(n));
            if x.is_var() {
                lemma_write_wf(s, x, v);
                lemma_write_wf(s1, x, v);
                assert(s1.link(x, v).unwrap().nodes =~= t.nodes);
            }
            assert(s1.link(x, v) == Ok::<NetState, crate::error::Error>(t));
        },
    }
}

/// Wiring four agents in hand to each other leaves the net sound.
#[verifier::rlimit(40)]
pub proof fn lemma_mesh_sound(s: NetState, cut: Set<Ptr>, loose: Set<u64>, b1: u64, b2: u64, a1: u64, a2: u64)
    requires
        sound_but(s, cut, loose),
        holds_agents(s, b1),
        holds_agents(s, b2),
        holds_agents(s, a1),
        holds_agents(s, a2),
        b1 != b2 && b1 != a1 && b1 != a2 && b2 != a1 && b2 != a2 && a1 != a2,
        forall|p: Ptr| #[trigger]
            cut.contains(p) ==> p.val() != b1 && p.val() != b2 && p.val() != a1 && p.val() != a2,
    ensures
        s.mesh(b1, b2, a1, a2) is Ok,
        sound_but(s.mesh(b1, b2, a1, a2).unwrap(), cut, loose),
        same_agents(s, s.mesh(b1, b2, a1, a2).unwrap()),
{
    let s1 = s.fill(b1, Ptr::Aux1(a1), Ptr::Aux1(a2)).unwrap();
    lemma_fill_keeps(s, b1, Ptr::Aux1(a1), Ptr::Aux1(a2));
    lemma_fill_owned(s, cut, loose, b1, Ptr::Aux1(a1), Ptr::Aux1(a2));
    let s2 = s1.fill(b2, Ptr::Aux2(a1), Ptr::Aux2(a2)).unwrap();
    lemma_fill_keeps(s1, b2, Ptr::Aux2(a1), Ptr::Aux2(a2));
    lemma_fill_owned(s1, cut, loose, b2, Ptr::Aux2(a1), Ptr::Aux2(a2));
    let s3 = s2.fill(a1, Ptr::Aux1(b1), Ptr::Aux1(b2)).unwrap();
    lemma_fill_keeps(s2, a1, Ptr::Aux1(b1), Ptr::Aux1(b2));
    lemma_fill_owned(s2, cut, loose, a1, Ptr::Aux1(b1), Ptr::Aux1(b2));
    let t = s3.fill(a2, Ptr::Aux2(b1), Ptr::Aux2(b2)).unwrap();
    lemma_fill_keeps(s3, a2, Ptr::Aux2(b1), Ptr::Aux2(b2));
    lemma_fill_owned(s3, cut, loose, a2, Ptr::Aux2(b1), Ptr::Aux2(b2));
    lemma_mesh_keeps(s, b1, b2, a1, a2);
    lemma_mesh_wired(s, cut, b1, b2, a1, a2);
}

/// Commutation on a sound net with four free slots succeeds and leaves
/// the net sound.
#[verifier::rlimit(40)]
pub proof fn lemma_commute_sound(s: NetState, a: Ptr, b: Ptr)
    requires
        sound_but(s, Set::empty(), Set::empty().insert(a.val()).insert(b.val())),
        a.is_ctr(),
        b.is_ctr(),
        s.is_live(a.val()),
        s.is_live(b.val()),
        a.val() != b.val(),
        s.free.len() >= 4,
    ensures
        s.commute(a, b) is Ok,
        sound(s.commute(a, b).unwrap()),
{
    reveal(NetState::commute);
    let none = Set::<Ptr>::empty();
    let x = a.val();
    let y = b.val();
    let l0 = Set::<u64>::empty().insert(x).insert(y);
    lemma_allocate_sound(s, l0);
    let (n1, b1) = s.allocate().unwrap();
    lemma_allocate_sound(n1, l0.insert(b1));
    let (n2, b2) = n1.allocate().unwrap();
    lemma_allocate_sound(n2, l0.insert(b1).insert(b2));
    let (n3, a1) = n2.allocate().unwrap();
    lemma_allocate_sound(n3, l0.insert(b1).insert(b2).insert(a1));
    let (s1, a2) = n3.allocate().unwrap();
    let l1 = l0.insert(b1).insert(b2).insert(a1).insert(a2);
    assert(s.allocate4() == Ok::<(NetState, (u64, u64, u64, u64)), crate::error::Error>(
        (s1, (b1, b2, a1, a2)),
    ));
    lemma_wire_sound(s1, none, l1, Ptr::Aux1(x), b.at(b1));
    let t1 = s1.wire(Ptr::Aux1(x), b.at(b1)).unwrap();
    let c1 = none.insert(Ptr::Aux1(x));
    let l2 = l1.remove(b1);
    lemma_wire_sound(t1, c1, l2, Ptr::Aux1(y), a.at(a1));
    let t2 = t1.wire(Ptr::Aux1(y), a.at(a1)).unwrap();
    let c2 = c1.insert(Ptr::Aux1(y));
    let l3 = l2.remove(a1);
    lemma_wire_sound(t2, c2, l3, Ptr::Aux2(x), b.at(b2));
    let t3 = t2.wire(Ptr::Aux2(x), b.at(b2)).unwrap();
    let c3 = c2.insert(Ptr::Aux2(x));
    let l4 = l3.remove(b2);
    lemma_wire_sound(t3, c3, l4, Ptr::Aux2(y), a.at(a2));
    let s2 = t3.wire(Ptr::Aux2(y), a.at(a2)).unwrap();
    let c4 = c3.insert(Ptr::Aux2(y));
    let l5 = l4.remove(a2);
    assert(s1.pass(a, b, b1, b2, a1, a2) == Ok::<NetState, crate::error::Error>(s2));
    assert(l5 =~= l0);
    lemma_mesh_sound(s2, c4, l0, b1, b2, a1, a2);
    let s3 = s2.mesh(b1, b2, a1, a2).unwrap();
    lemma_release_sound(s3, c4, l0, x);
    let s4 = s3.release(x).unwrap();
    let c5 = c4.remove(Ptr::Aux1(x)).remove(Ptr::Aux2(x));
    lemma_release_sound(s4, c5, l0.remove(x), y);
    assert(c5.remove(Ptr::Aux1(y)).remove(Ptr::Aux2(y)) =~= none);
    assert(l0.remove(x).remove(y) =~= Set::<u64>::empty());
}

/// What the holder `h` of a template holds: the root port holds what the
/// template offers at its root.
pub open spec fn held_in(t: TemplateState, h: Holder) -> Option<Ptr> {
    match h {
        Holder::Port(p) => if p is Root {
            Some(t.root)
        } else if t.is_port(p) {
            Some(t.get(p))
        } else {
            None
        },
        Holder::Fst(k) => if 0 <= k < t.acts.len() {
            Some(t.acts[k].0)
        } else {
            None
        },
        Holder::Snd(k) => if 0 <= k < t.acts.len() {
            Some(t.acts[k].1)
        } else {
            None
        },
    }
}

/// Whether the holder `h` of a template holds the principal port of its
/// agent `i`.
pub open spec fn owns_in(t: TemplateState, h: Holder, i: u64) -> bool {
    held_in(t, h) matches Some(q) && q.is_ctr() && q.val() == i
}

/// Whether the template has no dangling port and points to each of its
/// agents from one place only.
pub open spec fn template_sound(t: TemplateState) -> bool {
    &&& t.closed()
    &&& forall|h1: Holder, h2: Holder, i: u64|
        #[trigger] owns_in(t, h1, i) && #[trigger] owns_in(t, h2, i) ==> h1 == h2
}

/// Whether every definition of the book is a sound template.
pub open spec fn book_sound(book: Map<u64, TemplateState>) -> bool {
    forall|name: u64| #[trigger] book.contains_key(name) ==> template_sound(book[name])
}

/// Where the holder `th` of a template is found in a net after the
/// template was copied: its ports at the places, its pairs behind the `m`
/// pairs that were pending.
pub open spec fn moved(th: Holder, locs: Seq<u64>, m: int) -> Holder {
    match th {
        Holder::Port(p) => Holder::Port(reloc(p, locs)),
        Holder::Fst(k) => Holder::Fst(m + k),
        Holder::Snd(k) => Holder::Snd(m + k),
    }
}

/// The agents in hand after a template was copied: the root of the copy
/// joins them, if it is an agent.
pub open spec fn taken(loose: Set<u64>, r: Ptr) -> Set<u64> {
    if r.is_ctr() {
        loose.insert(r.val())
    } else {
        loose
    }
}

/// Where a pointer to an agent can be found after a template was copied:
/// where it was before, or where the copy of a holder of the template is.
#[verifier::rlimit(40)]
pub proof fn lemma_instantiate_from(s: NetState, t: TemplateState, h: Holder, a: u64)
    requires
        s.wf(),
        t.wf(),
        s.instantiate(t) is Ok,
        owns(s.instantiate(t).unwrap().0, loose_end(s.instantiate(t).unwrap().1), h, a),
    ensures
        owns(s, Set::empty(), h, a) || exists|th: Holder, i: int|
            0 <= i < t.nodes.len() && t.places(s.free)[i] == a && #[trigger] owns_in(t, th, i as u64)
                && th != Holder::Port(Ptr::Root) && h == moved(th, t.places(s.free), s.acts.len() as int),
{
    let locs = t.places(s.free);
    let (after, r) = s.instantiate(t).unwrap();
    let m = s.acts.len() as int;
    let n = t.nodes.len();
    lemma_instantiate_slots(s, t);
    crate::net::lemma_free_fits(s);
    match h {
        Holder::Port(p) => {
            if s.is_port(p) {
                if !(p is Root) {
                    let j = p.val() as int;
                    assert(forall|i: int| 0 <= i < locs.len() ==> locs[i] != j);
                    assert(after.nodes[j] == s.nodes[j]);
                }
                assert(owns(s, Set::empty(), h, a));
            } else {
                let j = p.val();
                if forall|i: int| 0 <= i < locs.len() ==> locs[i] != j {
                    assert(after.nodes[j as int] == s.nodes[j as int]);
                    assert(false);
                }
                let i = choose|i: int| 0 <= i < locs.len() && locs[i] == j;
                assert(after.nodes[locs[i] as int] == reloc_node(t.nodes[i], locs));
                let pt = p.at(i as u64);
                assert(t.is_port(pt));
                let qt = t.get(pt);
                assert(after.get(p) == Some(reloc(qt, locs)));
                assert(qt.is_ctr());
                let k = qt.val() as int;
                assert(locs[k] == a);
                assert(owns_in(t, Holder::Port(pt), k as u64));
                assert(h == moved(Holder::Port(pt), locs, m));
            }
        },
        Holder::Fst(k) => {
            if k < m {
                assert(after.acts[k] == s.acts[k]);
            } else {
                let qt = t.acts[k - m].0;
                assert(after.acts[k].0 == reloc(qt, locs));
                let i = qt.val() as int;
                assert(owns_in(t, Holder::Fst(k - m), i as u64));
                assert(h == moved(Holder::Fst(k - m), locs, m));
            }
        },
        Holder::Snd(k) => {
            if k < m {
                assert(after.acts[k] == s.acts[k]);
            } else {
                let qt = t.acts[k - m].1;
                assert(after.acts[k].1 == reloc(qt, locs));
                let i = qt.val() as int;
                assert(owns_in(t, Holder::Snd(k - m), i as u64));
                assert(h == moved(Holder::Snd(k - m), locs, m));
            }
        },
    }
}

/// A copy of a sound template leaves a sound net sound but for the root of
/// the copy, which is in hand if it is an agent and waits to be joined if
/// it is a port.
#[verifier::rlimit(40)]
pub proof fn lemma_instantiate_sound(s: NetState, t: TemplateState, loose: Set<u64>)
    requires
        sound_but(s, Set::empty(), loose),
        forall|a: u64| #[trigger] loose.contains(a) ==> s.is_live(a),
        template_sound(t),
        s.free.len() >= t.nodes.len(),
    ensures
        s.instantiate(t) is Ok,
        ({
            let (after, r) = s.instantiate(t).unwrap();
            &&& sound_but(after, loose_end(r), taken(loose, r))
            &&& r.is_ctr() ==> after.is_live(r.val()) && !loose.contains(r.val())
            &&& r.is_var() ==> after.is_port(r) && !s.is_port(r)
            &&& forall|p: Ptr| s.is_port(p) ==> after.is_port(p) && after.get(p) == s.get(p)
            &&& forall|a: u64| s.is_live(a) ==> after.is_live(a)
            &&& after.rwts == s.rwts && after.dref == s.dref && after.nodes.len() == s.nodes.len()
        }),
{
    let none = Set::<Ptr>::empty();
    let locs = t.places(s.free);
    let (after, r) = s.instantiate(t).unwrap();
    let cut = loose_end(r);
    let l2 = taken(loose, r);
    let m = s.acts.len() as int;
    let n = t.nodes.len();
    lemma_instantiate_slots(s, t);
    lemma_instantiate_wired(s, t);
    lemma_instantiate_wf(s, t);
    crate::net::lemma_free_fits(s);
    assert forall|a: u64| s.is_live(a) implies after.is_live(a) by {
        assert(forall|i: int| 0 <= i < locs.len() ==> locs[i] != a);
        assert(after.nodes[a as int] == s.nodes[a as int]);
    }
    if r.is_ctr() {
        let ir = t.root.val() as int;
        assert(after.nodes[locs[ir] as int] == reloc_node(t.nodes[ir], locs));
        assert(owns_in(t, Holder::Port(Ptr::Root), ir as u64));
    }
    assert forall|h: Holder, a: u64| #[trigger] owns(after, cut, h, a) implies after.is_live(a)
        && !l2.contains(a) by {
        lemma_instantiate_from(s, t, h, a);
        if owns(s, none, h, a) {
            assert(s.is_live(a));
            if r.is_ctr() && a == r.val() {
                assert(false);
            }
        } else {
            let (th, i) = choose|th: Holder, i: int|
                0 <= i < t.nodes.len() && locs[i] == a && #[trigger] owns_in(t, th, i as u64) && th
                    != Holder::Port(Ptr::Root) && h == moved(th, locs, m);
            assert(after.nodes[locs[i] as int] == reloc_node(t.nodes[i], locs));
            assert(!s.is_live(locs[i]));
            if r.is_ctr() && a == r.val() {
                let ir = t.root.val() as int;
                assert(locs[ir] == locs[i]);
                assert(owns_in(t, Holder::Port(Ptr::Root), i as u64));
            }
        }
    }
    assert forall|h1: Holder, h2: Holder, a: u64|
        #[trigger] owns(after, cut, h1, a) && #[trigger] owns(after, cut, h2, a) implies h1
        == h2 by {
        lemma_instantiate_from(s, t, h1, a);
        lemma_instantiate_from(s, t, h2, a);
        if owns(s, none, h1, a) {
            assert(s.is_live(a));
            if !owns(s, none, h2, a) {
                let (th, i) = choose|th: Holder, i: int|
                    0 <= i < t.nodes.len() && locs[i] == a && #[trigger] owns_in(t, th, i as u64)
                        && th != Holder::Port(Ptr::Root) && h2 == moved(th, locs, m);
                assert(!s.is_live(locs[i]));
            }
        } else {
            let (t1, i1) = choose|th: Holder, i: int|
                0 <= i < t.nodes.len() && locs[i] == a && #[trigger] owns_in(t, th, i as u64) && th
                    != Holder::Port(Ptr::Root) && h1 == moved(th, locs, m);
            assert(!s.is_live(locs[i1]));
            if owns(s, none, h2, a) {
                assert(s.is_live(a));
            } else {
                let (t2, i2) = choose|th: Holder, i: int|
                    0 <= i < t.nodes.len() && locs[i] == a && #[trigger] owns_in(t, th, i as u64)
                        && th != Holder::Port(Ptr::Root) && h2 == moved(th, locs, m);
                assert(i1 == i2);
                assert(t1 == t2);
            }
        }
    }
    assert forall|k: int| 0 <= k < after.acts.len() implies !(#[trigger] after.acts[k]).0.is_var()
        && !after.acts[k].1.is_var() by {
        if k < m {
            assert(after.acts[k] == s.acts[k]);
        } else {
            assert(after.acts[k] == (
                reloc(t.acts[k - m].0, locs),
                reloc(t.acts[k - m].1, locs),
            ));
        }
    }
}

/// Whether the definition `name` can be copied into the net: it exists,
/// the reference counter can advance, and every agent finds a slot.
pub open spec fn can_deref(s: NetState, book: Map<u64, TemplateState>, name: u64) -> bool {
    &&& book.contains_key(name)
    &&& s.dref < u64::MAX
    &&& s.free.len() >= book[name].nodes.len()
}

/// The error that stops the copying of the definition `name`.
pub open spec fn deref_error(s: NetState, book: Map<u64, TemplateState>, name: u64) -> Error {
    if !book.contains_key(name) {
        Error::UndefinedReference(name)
    } else if s.dref == u64::MAX {
        Error::CounterOverflow
    } else {
        Error::OutOfMemory
    }
}

/// On a sound net, the definition `name` is copied exactly if it can be,
/// and the net is then sound but for the root of the copy.
#[verifier::rlimit(40)]
pub proof fn lemma_deref_sound(s: NetState, book: Map<u64, TemplateState>, name: u64, loose: Set<u64>)
    requires
        sound_but(s, Set::empty(), loose),
        forall|a: u64| #[trigger] loose.contains(a) ==> s.is_live(a),
        book_sound(book),
    ensures
        !can_deref(s, book, name) ==> s.deref(book, name) == Err::<(NetState, Ptr), Error>(
            deref_error(s, book, name),
        ),
        can_deref(s, book, name) ==> s.deref(book, name) is Ok && ({
            let (after, r) = s.deref(book, name).unwrap();
            &&& sound_but(after, loose_end(r), taken(loose, r))
            &&& r.is_ctr() ==> after.is_live(r.val()) && !loose.contains(r.val())
            &&& r.is_var() ==> after.is_port(r) && !s.is_port(r)
            &&& forall|p: Ptr| s.is_port(p) ==> after.is_port(p) && after.get(p) == s.get(p)
            &&& forall|a: u64| s.is_live(a) ==> after.is_live(a)
            &&& after.nodes.len() == s.nodes.len()
        }),
{
    reveal(NetState::deref);
    if can_deref(s, book, name) {
        let d = NetState { dref: (s.dref + 1) as u64, ..s };
        assert(sound_but(d, Set::empty(), loose)) by {
            lemma_counters_sound(s, d, Set::empty(), loose);
        }
        assert forall|a: u64| #[trigger] loose.contains(a) implies d.is_live(a) by {
            assert(s.is_live(a));
        }
        lemma_instantiate_sound(d, book[name], loose);
        assert forall|p: Ptr| s.is_port(p) implies d.is_port(p) && d.get(p) == s.get(p) by {}
    }
}

/// Soundness does not depend on the counters.
pub proof fn lemma_counters_sound(s: NetState, t: NetState, cut: Set<Ptr>, loose: Set<u64>)
    requires
        sound_but(s, cut, loose),
        t.nodes == s.nodes,
        t.free == s.free,
        t.root == s.root,
        t.acts == s.acts,
    ensures
        sound_but(t, cut, loose),
{
    assert forall|p: Ptr|
        #![trigger t.is_port(p)]
        #![trigger cut.contains(p)]
        t.is_port(p) && !cut.contains(p) implies wire_at(t, p) && !cut.contains(
        t.get(p).unwrap(),
    ) by {
        assert(s.is_port(p));
        assert(wire_at(s, p));
    }
    assert forall|h: Holder, a: u64| owns(t, cut, h, a) implies owns(s, cut, h, a) by {}
    assert forall|h: Holder, a: u64| #[trigger] owns(t, cut, h, a) implies t.is_live(a)
        && !loose.contains(a) by {
        assert(owns(s, cut, h, a));
    }
    assert forall|h1: Holder, h2: Holder, a: u64|
        #[trigger] owns(t, cut, h1, a) && #[trigger] owns(t, cut, h2, a) implies h1 == h2 by {
        assert(owns(s, cut, h1, a));
        assert(owns(s, cut, h2, a));
    }
}

/// On a sound net, a reference that faces an agent in hand is expanded
/// exactly if its definition can be copied, and the net is then sound.
#[verifier::rlimit(40)]
pub proof fn lemma_unfold_sound(s: NetState, book: Map<u64, TemplateState>, name: u64, other: Ptr)
    requires
        sound_but(s, Set::empty(), taken(Set::empty(), other)),
        !other.is_var(),
        other.is_ctr() ==> s.is_live(other.val()),
        book_sound(book),
    ensures
        !can_deref(s, book, name) ==> s.unfold(book, name, other) == Err::<NetState, Error>(
            deref_error(s, book, name),
        ),
        can_deref(s, book, name) ==> s.unfold(book, name, other) is Ok && sound(
            s.unfold(book, name, other).unwrap(),
        ),
{
    let none = Set::<Ptr>::empty();
    let l0 = taken(Set::<u64>::empty(), other);
    lemma_deref_sound(s, book, name, l0);
    if can_deref(s, book, name) {
        let (s1, r) = s.deref(book, name).unwrap();
        let l1 = taken(l0, r);
        if r.is_var() {
            lemma_reset(s1, loose_end(r), l1, r, other);
            assert(loose_end(r).remove(r) =~= none);
            assert(given(l1, other) =~= Set::<u64>::empty());
        } else {
            lemma_pair_sound(s1, none, l1, r, other);
            assert(loose_end(r) =~= none);
            assert(given(given(l1, r), other) =~= Set::<u64>::empty());
        }
    }
}

/// The agents of a pair that is being rewritten.
pub open spec fn hand(a: Ptr, b: Ptr) -> Set<u64> {
    taken(taken(Set::empty(), a), b)
}

/// Whether `a` and `b` are a pair that a sound net can rewrite: two
/// agents, live if they have ports, and not one and the same.
pub open spec fn pair_ok(s: NetState, a: Ptr, b: Ptr) -> bool {
    &&& !a.is_var() && !b.is_var()
    &&& a.is_ctr() ==> s.is_live(a.val())
    &&& b.is_ctr() ==> s.is_live(b.val())
    &&& a.is_ctr() && b.is_ctr() ==> a.val() != b.val()
}

/// Whether the net has what the rewrite of the pair `a`, `b` needs: room
/// in the rewrite counter; for a reference that is expanded, its
/// definition, room in the reference counter and a slot for each of its
/// agents; for a commutation, four free slots.
pub open spec fn enough(s: NetState, book: Map<u64, TemplateState>, a: Ptr, b: Ptr) -> bool {
    &&& s.rwts < u64::MAX
    &&& expands(a, b) ==> can_deref(s, book, a.val())
    &&& !expands(a, b) && expands(b, a) ==> can_deref(s, book, b.val())
    &&& a.is_ctr() && b.is_ctr() && !annihilates(a, b) ==> s.free.len() >= 4
}

/// On a sound net a rewrite succeeds exactly if the net has what it needs,
/// and leaves the net sound. It never finds a pointer out of range: what
/// can stop it is a full arena, an undefined reference or a full counter.
#[verifier::rlimit(40)]
pub proof fn lemma_step_sound(s: NetState, book: Map<u64, TemplateState>, a: Ptr, b: Ptr)
    requires
        sound_but(s, Set::empty(), hand(a, b)),
        pair_ok(s, a, b),
        book_sound(book),
    ensures
        s.step(book, a, b) is Ok <==> enough(s, book, a, b),
        s.step(book, a, b) is Ok ==> sound(s.step(book, a, b).unwrap()),
        s.step(book, a, b) matches Err(e) ==> e is OutOfMemory || e is UndefinedReference || e
            is CounterOverflow,
{
    reveal(NetState::step);
    let none = Set::<Ptr>::empty();
    if s.rwts < u64::MAX {
        let s0 = NetState { rwts: (s.rwts + 1) as u64, ..s };
        lemma_counters_sound(s, s0, none, hand(a, b));
        if expands(a, b) {
            assert(hand(a, b) =~= taken(Set::<u64>::empty(), b));
            lemma_unfold_sound(s0, book, a.val(), b);
        } else if expands(b, a) {
            assert(hand(a, b) =~= taken(Set::<u64>::empty(), a));
            lemma_unfold_sound(s0, book, b.val(), a);
        } else if a.is_nul() && b.is_nul() {
            assert(hand(a, b) =~= Set::<u64>::empty());
        } else if a.is_nul() {
            assert(hand(a, b) =~= Set::<u64>::empty().insert(b.val()));
            lemma_absorb_sound(s0, a, b);
        } else if b.is_nul() {
            assert(hand(a, b) =~= Set::<u64>::empty().insert(a.val()));
            lemma_absorb_sound(s0, b, a);
        } else if annihilates(a, b) {
            assert(hand(a, b) =~= Set::<u64>::empty().insert(a.val()).insert(b.val()));
            lemma_annihilate_sound(s0, a.val(), b.val());
        } else {
            assert(hand(a, b) =~= Set::<u64>::empty().insert(a.val()).insert(b.val()));
            if s0.free.len() >= 4 {
                lemma_commute_sound(s0, a, b);
            } else {
                lemma_commute_starved(s0, a, b);
            }
        }
    }
}

/// On a sound net, an agent without ports deals with a two-port agent in
/// hand, and the net stays sound.
pub proof fn lemma_absorb_sound(s: NetState, n: Ptr, c: Ptr)
    requires
        sound_but(s, Set::empty(), Set::empty().insert(c.val())),
        n.is_nul(),
        c.is_ctr(),
        s.is_live(c.val()),
    ensures
        s.absorb(n, c) is Ok,
        sound(s.absorb(n, c).unwrap()),
{
    match (n, c) {
        (Ptr::Num(v), Ptr::Opr(op, addr)) => {
            lemma_arith_sound(s, op, addr, v);
        },
        _ => {
            lemma_erase_sound(s, n, c.val());
        },
    }
}

/// A commutation that finds fewer than four free slots reports a full
/// arena.
pub proof fn lemma_commute_starved(s: NetState, a: Ptr, b: Ptr)
    requires
        s.is_live(a.val()),
        s.is_live(b.val()),
        s.free.len() < 4,
    ensures
        s.commute(a, b) == Err::<NetState, Error>(Error::OutOfMemory),
{
    reveal(NetState::commute);
}

/// Two detached ports that are made to hold each other are a wire.
#[verifier::rlimit(40)]
pub proof fn lemma_tie(s: NetState, cut: Set<Ptr>, loose: Set<u64>, u: Ptr, v: Ptr)
    requires
        sound_but(s, cut, loose),
        s.is_port(u),
        s.is_port(v),
        cut.contains(u),
        cut.contains(v),
        u != v,
    ensures
        s.link(u, v) is Ok,
        sound_but(s.link(u, v).unwrap(), cut.remove(u).remove(v), loose),
        same_agents(s, s.link(u, v).unwrap()),
{
    let s1 = s.write(u, v).unwrap();
    lemma_write_wf(s, u, v);
    let t = s1.write(v, u).unwrap();
    lemma_write_wf(s1, v, u);
    let c2 = cut.remove(u).remove(v);
    assert forall|q: Ptr|
        #![trigger t.is_port(q)]
        #![trigger c2.contains(q)]
        t.is_port(q) && !c2.contains(q) implies wire_at(t, q) && !c2.contains(
        t.get(q).unwrap(),
    ) by {
        assert(s.is_port(q));
        if q != u && q != v {
            assert(wire_at(s, q));
            let r = s.get(q).unwrap();
            if r.is_var() {
                assert(s.is_port(r));
            }
        }
    }
    assert forall|h: Holder, x: u64| owns(t, c2, h, x) implies owns(s, cut, h, x) by {
        match h {
            Holder::Port(q) => {
                assert(s.is_port(q));
            },
            _ => {},
        }
    }
    assert forall|h: Holder, x: u64| #[trigger] owns(t, c2, h, x) implies t.is_live(x)
        && !loose.contains(x) by {
        assert(owns(s, cut, h, x));
    }
    assert forall|h1: Holder, h2: Holder, x: u64|
        #[trigger] owns(t, c2, h1, x) && #[trigger] owns(t, c2, h2, x) implies h1 == h2 by {
        assert(owns(s, cut, h1, x));
        assert(owns(s, cut, h2, x));
    }
}

/// Taking the last pending pair off a sound net puts its agents in hand.
#[verifier::rlimit(40)]
pub proof fn lemma_pop_sound(s: NetState)
    requires
        sound(s),
        s.acts.len() > 0,
    ensures
        sound_but(s.popped(), Set::empty(), hand(s.acts.last().0, s.acts.last().1)),
        pair_ok(s.popped(), s.acts.last().0, s.acts.last().1),
{
    let none = Set::<Ptr>::empty();
    let p = s.popped();
    let n = s.acts.len() - 1;
    let (a, b) = s.acts.last();
    let l = hand(a, b);
    assert(s.acts[n] == (a, b));
    if a.is_ctr() {
        assert(owns(s, none, Holder::Fst(n), a.val()));
    }
    if b.is_ctr() {
        assert(owns(s, none, Holder::Snd(n), b.val()));
    }
    assert forall|q: Ptr|
        #![trigger p.is_port(q)]
        #![trigger none.contains(q)]
        p.is_port(q) && !none.contains(q) implies wire_at(p, q) && !none.contains(
        p.get(q).unwrap(),
    ) by {
        assert(s.is_port(q));
        assert(wire_at(s, q));
    }
    assert forall|h: Holder, x: u64| owns(p, none, h, x) implies owns(s, none, h, x) && h
        != Holder::Fst(n) && h != Holder::Snd(n) by {
        match h {
            Holder::Port(q) => {},
            Holder::Fst(k) => {
                assert(p.acts[k] == s.acts[k]);
            },
            Holder::Snd(k) => {
                assert(p.acts[k] == s.acts[k]);
            },
        }
    }
    assert forall|h: Holder, x: u64| #[trigger] owns(p, none, h, x) implies p.is_live(x)
        && !l.contains(x) by {
        assert(owns(s, none, h, x));
    }
    assert forall|h1: Holder, h2: Holder, x: u64|
        #[trigger] owns(p, none, h1, x) && #[trigger] owns(p, none, h2, x) implies h1 == h2 by {
        assert(owns(s, none, h1, x));
        assert(owns(s, none, h2, x));
    }
    assert forall|k: int| 0 <= k < p.acts.len() implies !(#[trigger] p.acts[k]).0.is_var()
        && !p.acts[k].1.is_var() by {
        assert(p.acts[k] == s.acts[k]);
    }
}

/// Whether `e` is an error that a sound net can meet: a full arena, an
/// undefined reference or a full counter.
pub open spec fn lack(e: Error) -> bool {
    e is OutOfMemory || e is UndefinedReference || e is CounterOverflow
}

/// Reduction keeps a sound net sound, and never finds a pointer out of
/// range.
pub proof fn lemma_reduce_sound(s: NetState, book: Map<u64, TemplateState>, fuel: nat)
    requires
        sound(s),
        book_sound(book),
    ensures
        s.reduce_run(book, fuel) is Ok ==> sound(s.reduce_run(book, fuel).unwrap()),
        s.reduce_run(book, fuel) matches Err(e) ==> lack(e),
    decreases fuel,
{
    if s.acts.len() > 0 && fuel > 0 {
        let (a, b) = s.acts.last();
        lemma_pop_sound(s);
        lemma_step_sound(s.popped(), book, a, b);
        if s.popped().step(book, a, b) is Ok {
            lemma_reduce_sound(s.popped().step(book, a, b).unwrap(), book, (fuel - 1) as nat);
        }
    }
}

/// On a sound net, a port that holds a reference whose definition can be
/// copied is given the root of the copy. The net stays sound, and every
/// other port holds what it held.
pub proof fn lemma_hang_sound(s: NetState, book: Map<u64, TemplateState>, name: u64, dir: Ptr)
    requires
        sound(s),
        book_sound(book),
        s.is_port(dir),
        s.get(dir) == Some(Ptr::Ref(name)),
        can_deref(s, book, name),
    ensures
        s.deref(book, name) is Ok,
        s.deref(book, name).unwrap().0.link(dir, s.deref(book, name).unwrap().1) is Ok,
        ({
            let (s1, r) = s.deref(book, name).unwrap();
            let s2 = s1.link(dir, r).unwrap();
            &&& sound(s2)
            &&& s2.nodes.len() == s.nodes.len()
            &&& forall|p: Ptr| s.is_port(p) ==> s2.is_port(p)
            &&& forall|p: Ptr| s.is_port(p) && p != dir ==> s2.get(p) == s.get(p)
            &&& forall|a: u64| s.is_live(a) ==> s2.is_live(a)
        }),
{
    let none = Set::<Ptr>::empty();
    let idle = Set::<u64>::empty();
    lemma_deref_sound(s, book, name, idle);
    let (s1, r) = s.deref(book, name).unwrap();
    let l1 = taken(idle, r);
    assert(!loose_end(r).contains(dir));
    lemma_cut_idle(s1, loose_end(r), l1, dir);
    let c1 = loose_end(r).insert(dir);
    if r.is_var() {
        lemma_tie(s1, c1, l1, dir, r);
        assert(c1.remove(dir).remove(r) =~= none);
        lemma_write_wf(s1, dir, r);
        lemma_write_wf(s1.write(dir, r).unwrap(), r, dir);
    } else {
        lemma_reset(s1, c1, l1, dir, r);
        assert(c1.remove(dir) =~= none);
        assert(given(l1, r) =~= idle);
        lemma_write_wf(s1, dir, r);
    }
    lemma_link_wf(s1, dir, r);
    let s2 = s1.link(dir, r).unwrap();
    assert forall|p: Ptr| s.is_port(p) && p != dir implies s2.get(p) == s.get(p) by {
        assert(s1.is_port(p) && s1.get(p) == s.get(p));
    }
    assert forall|p: Ptr| s.is_port(p) implies s2.is_port(p) by {
        assert(s1.is_port(p));
    }
    assert forall|a: u64| s.is_live(a) implies s2.is_live(a) by {
        assert(s1.is_live(a));
    }
}

/// Expansion below ports of a sound net keeps the net sound. What can stop
/// it is a full arena, an undefined reference, a full counter, or agents
/// that do not form a tree; never a pointer out of range.
#[verifier::rlimit(40)]
pub proof fn lemma_expand_sound(s: NetState, book: Map<u64, TemplateState>, stack: Seq<Ptr>, fuel: nat)
    requires
        sound(s),
        book_sound(book),
        forall|k: int| 0 <= k < stack.len() ==> s.is_port(#[trigger] stack[k]),
    ensures
        s.expand_run(book, stack, fuel) is Ok ==> sound(s.expand_run(book, stack, fuel).unwrap()),
        s.expand_run(book, stack, fuel) matches Err(e) ==> lack(e) || e is Cyclic,
    decreases fuel, stack.len(),
{
    let none = Set::<Ptr>::empty();
    if stack.len() > 0 {
        let dir = stack.last();
        let rest = stack.drop_last();
        assert(s.is_port(stack[stack.len() - 1]));
        assert forall|k: int| 0 <= k < rest.len() implies s.is_port(#[trigger] rest[k]) by {
            assert(rest[k] == stack[k]);
        }
        match s.read(dir).unwrap() {
            Ptr::Ref(name) => {
                lemma_deref_sound(s, book, name, Set::empty());
                if can_deref(s, book, name) {
                    lemma_hang_sound(s, book, name, dir);
                    let (s1, r) = s.deref(book, name).unwrap();
                    let s2 = s1.link(dir, r).unwrap();
                    assert forall|k: int| 0 <= k < rest.len() implies s2.is_port(
                        #[trigger] rest[k],
                    ) by {
                        assert(s.is_port(rest[k]));
                    }
                    lemma_expand_sound(s2, book, rest, fuel);
                }
            },
            p => {
                if p.is_ctr() {
                    if fuel > 0 {
                        let next = rest.push(Ptr::Aux2(p.val())).push(Ptr::Aux1(p.val()));
                        assert(owns(s, none, Holder::Port(dir), p.val()));
                        assert forall|k: int| 0 <= k < next.len() implies s.is_port(
                            #[trigger] next[k],
                        ) by {
                            if k < rest.len() {
                                assert(next[k] == rest[k]);
                            }
                        }
                        lemma_expand_sound(s, book, next, (fuel - 1) as nat);
                    }
                } else {
                    lemma_expand_sound(s, book, rest, fuel);
                }
            },
        }
    }
}

/// Whether the walk of an expansion is in order: no port waits twice; each
/// waiting port is the root or a port of an agent that was entered; each
/// agent that was entered is live and is pointed to from a port that no
/// longer waits, itself the root or a port of an agent that was entered.
pub open spec fn walking(s: NetState, stack: Seq<Ptr>, seen: Set<u64>, via: Map<u64, Ptr>) -> bool {
    &&& stack.no_duplicates()
    &&& forall|k: int|
        0 <= k < stack.len() ==> s.is_port(#[trigger] stack[k]) && (stack[k] is Root || seen.contains(
            stack[k].val(),
        ))
    &&& forall|y: u64| #[trigger]
        seen.contains(y) ==> {
            &&& s.is_live(y)
            &&& via.contains_key(y)
            &&& s.is_port(via[y])
            &&& s.get(via[y]).unwrap().is_ctr()
            &&& s.get(via[y]).unwrap().val() == y
            &&& !stack.contains(via[y])
            &&& (via[y] is Root || seen.contains(via[y].val()))
        }
}

/// In a sound net the agents below the root form a tree: an expansion that
/// has entered the agents in `seen`, and has fuel for all the others, does
/// not run out of fuel.
#[verifier::rlimit(60)]
pub proof fn lemma_expand_tree(
    s: NetState,
    book: Map<u64, TemplateState>,
    stack: Seq<Ptr>,
    fuel: nat,
    seen: Set<u64>,
    via: Map<u64, Ptr>,
)
    requires
        sound(s),
        book_sound(book),
        walking(s, stack, seen, via),
        seen.finite(),
        seen.len() + fuel >= s.nodes.len(),
    ensures
        !(s.expand_run(book, stack, fuel) matches Err(Error::Cyclic)),
    decreases fuel, stack.len(),
{
    let none = Set::<Ptr>::empty();
    if stack.len() > 0 {
        let n = stack.len() - 1;
        let dir = stack.last();
        let rest = stack.drop_last();
        assert(stack[n] == dir);
        assert(s.is_port(dir));
        assert forall|k: int| 0 <= k < rest.len() implies rest[k] == stack[k] && rest[k] != dir by {}
        assert(!rest.contains(dir));
        assert forall|y: u64| seen.contains(y) implies !rest.contains(via[y]) by {
            if rest.contains(via[y]) {
                let k = choose|k: int| 0 <= k < rest.len() && rest[k] == via[y];
                assert(stack[k] == via[y]);
            }
        }
        match s.read(dir).unwrap() {
            Ptr::Ref(name) => {
                lemma_deref_sound(s, book, name, Set::empty());
                if can_deref(s, book, name) {
                    lemma_hang_sound(s, book, name, dir);
                    let (s1, r) = s.deref(book, name).unwrap();
                    let s2 = s1.link(dir, r).unwrap();
                    assert forall|y: u64| #[trigger] seen.contains(y) implies {
                        &&& s2.is_live(y)
                        &&& via.contains_key(y)
                        &&& s2.is_port(via[y])
                        &&& s2.get(via[y]).unwrap().is_ctr()
                        &&& s2.get(via[y]).unwrap().val() == y
                        &&& !rest.contains(via[y])
                        &&& (via[y] is Root || seen.contains(via[y].val()))
                    } by {
                        assert(stack.contains(dir));
                        assert(via[y] != dir);
                        assert(s2.get(via[y]) == s.get(via[y]));
                    }
                    assert(walking(s2, rest, seen, via));
                    lemma_expand_tree(s2, book, rest, fuel, seen, via);
                }
            },
            p => {
                if p.is_ctr() {
                    let x = p.val();
                    assert(owns(s, none, Holder::Port(dir), x));
                    if seen.contains(x) {
                        assert(owns(s, none, Holder::Port(via[x]), x));
                        assert(stack.contains(dir));
                        assert(false);
                    }
                    if fuel == 0 {
                        let all = Set::new(|a: u64| a < s.nodes.len());
                        crate::net::lemma_below_finite(s.nodes.len());
                        let more = seen.insert(x);
                        assert(more.subset_of(all));
                        vstd::set_lib::lemma_len_subset(more, all);
                        assert(false);
                    }
                    let a1 = Ptr::Aux1(x);
                    let a2 = Ptr::Aux2(x);
                    let next = rest.push(a2).push(a1);
                    let seen2 = seen.insert(x);
                    let via2 = via.insert(x, dir);
                    assert forall|k: int| 0 <= k < rest.len() implies rest[k] != a1 && rest[k]
                        != a2 by {
                        assert(stack[k] == rest[k]);
                    }
                    assert forall|i: int, j: int|
                        0 <= i < next.len() && 0 <= j < next.len() && i != j implies next[i]
                        != next[j] by {
                        if i < rest.len() {
                            assert(next[i] == rest[i]);
                        }
                        if j < rest.len() {
                            assert(next[j] == rest[j]);
                        }
                    }
                    assert forall|k: int| 0 <= k < next.len() implies s.is_port(#[trigger] next[k])
                        && (next[k] is Root || seen2.contains(next[k].val())) by {
                        if k < rest.len() {
                            assert(next[k] == rest[k]);
                            assert(stack[k] == rest[k]);
                        }
                    }
                    assert forall|y: u64| #[trigger] seen2.contains(y) implies {
                        &&& s.is_live(y)
                        &&& via2.contains_key(y)
                        &&& s.is_port(via2[y])
                        &&& s.get(via2[y]).unwrap().is_ctr()
                        &&& s.get(via2[y]).unwrap().val() == y
                        &&& !next.contains(via2[y])
                        &&& (via2[y] is Root || seen2.contains(via2[y].val()))
                    } by {
                        let v = via2[y];
                        if y != x {
                            assert(seen.contains(y));
                            assert(v == via[y]);
                        } else {
                            assert(v == dir);
                        }
                        assert(!rest.contains(v));
                        assert(v != a1 && v != a2);
                        if next.contains(v) {
                            let k = choose|k: int| 0 <= k < next.len() && next[k] == v;
                            if k < rest.len() {
                                assert(rest[k] == v);
                            }
                        }
                    }
                    assert(walking(s, next, seen2, via2));
                    lemma_expand_tree(s, book, next, (fuel - 1) as nat, seen2, via2);
                } else {
                    assert(walking(s, rest, seen, via));
                    lemma_expand_tree(s, book, rest, fuel, seen, via);
                }
            },
        }
    }
}

/// On a sound net, an expansion below the root is stopped only by a full
/// arena, an undefined reference or a full counter.
pub proof fn lemma_expand_safe(s: NetState, book: Map<u64, TemplateState>)
    requires
        sound(s),
        book_sound(book),
    ensures
        s.expand(book, Ptr::Root) is Ok ==> sound(s.expand(book, Ptr::Root).unwrap()),
        s.expand(book, Ptr::Root) matches Err(e) ==> lack(e),
{
    let stack = seq![Ptr::Root];
    assert(stack[0] == Ptr::Root);
    lemma_expand_sound(s, book, stack, s.nodes.len());
    lemma_expand_tree(s, book, stack, s.nodes.len(), Set::empty(), Map::empty());
}

/// Normalization keeps a sound net sound. It never finds a pointer out of
/// range or agents that do not form a tree: what can stop it is a full
/// arena, an undefined reference or a full counter.
pub proof fn lemma_normal_sound(s: NetState, book: Map<u64, TemplateState>, fuel: nat)
    requires
        sound(s),
        book_sound(book),
    ensures
        s.normal_run(book, fuel) is Ok ==> sound(s.normal_run(book, fuel).unwrap()),
        s.normal_run(book, fuel) matches Err(e) ==> lack(e),
    decreases fuel,
{
    lemma_expand_safe(s, book);
    if s.expand(book, Ptr::Root) is Ok {
        let s1 = s.expand(book, Ptr::Root).unwrap();
        if s1.acts.len() == 0 && s1.dref == s.dref {
        } else if fuel > 0 {
            lemma_reduce_sound(s1, book, (u64::MAX - s1.rwts) as nat);
            if s1.reduce(book) is Ok {
                lemma_normal_sound(s1.reduce(book).unwrap(), book, (fuel - 1) as nat);
            }
        }
    }
}

/// A fresh net is sound, and stays so when it is booted.
pub proof fn lemma_fresh_sound(capacity: nat, name: u64)
    requires
        capacity <= usize::MAX,
    ensures
        sound(NetState::fresh(capacity)),
        sound(NetState::fresh(capacity).boot(name)),
{
    let s = NetState::fresh(capacity);
    assert(s.wf()) by {
        assert forall|i: int| 0 <= i < s.nodes.len() && !(#[trigger] s.nodes[i]).live implies s.free.contains(
            i as u64,
        ) by {
            assert(s.free[capacity - 1 - i] == i as u64);
        }
    }
    let t = s.boot(name);
    assert(t.wf()) by {
        assert forall|i: int| 0 <= i < t.nodes.len() && !(#[trigger] t.nodes[i]).live implies t.free.contains(
            i as u64,
        ) by {
            assert(t.free[capacity - 1 - i] == i as u64);
        }
    }
}

/// Booting keeps a sound net sound if the root holds no port.
pub proof fn lemma_boot_sound(s: NetState, name: u64)
    requires
        sound(s),
        !s.root.is_var(),
    ensures
        sound(s.boot(name)),
{
    let none = Set::<Ptr>::empty();
    let t = s.boot(name);
    assert(t.wf()) by {
        assert forall|i: int| 0 <= i < t.nodes.len() && !(#[trigger] t.nodes[i]).live implies t.free.contains(
            i as u64,
        ) by {
            assert(!s.nodes[i].live);
        }
    }
    assert forall|q: Ptr|
        #![trigger t.is_port(q)]
        #![trigger none.contains(q)]
        t.is_port(q) && !none.contains(q) implies wire_at(t, q) && !none.contains(
        t.get(q).unwrap(),
    ) by {
        assert(s.is_port(q));
        assert(wire_at(s, q));
        assert(s.is_port(Ptr::Root));
        assert(wire_at(s, Ptr::Root));
    }
    assert forall|h: Holder, x: u64| owns(t, none, h, x) implies owns(s, none, h, x) by {}
    assert forall|h: Holder, x: u64| #[trigger] owns(t, none, h, x) implies t.is_live(x)
        && !Set::<u64>::empty().contains(x) by {
        assert(owns(s, none, h, x));
    }
    assert forall|h1: Holder, h2: Holder, x: u64|
        #[trigger] owns(t, none, h1, x) && #[trigger] owns(t, none, h2, x) implies h1 == h2 by {
        assert(owns(s, none, h1, x));
        assert(owns(s, none, h2, x));
    }
}

} // verus!
