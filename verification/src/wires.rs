//! Wires: a port that holds a port is held by that port in turn. The
//! rewrite rules keep it so.

use vstd::prelude::*;
use crate::laws::{lemma_fill_keeps, lemma_join_keeps, lemma_wire_keeps};
use crate::book::{lemma_instantiate_wf, lemma_place, reloc, reloc_node, TemplateState};

use crate::net::{lemma_alloc_wf, lemma_release_wf, lemma_write_wf, NetState};
use crate::ptr::Ptr;

verus! {

/// Whether the port `p`, if it holds a port, is one end of a wire: what it
/// holds is another port of a live agent (or the root), which holds `p`.
pub open spec fn wire_at(s: NetState, p: Ptr) -> bool {
    let q = s.get(p).unwrap();
    q.is_var() ==> q != p && s.is_port(q) && s.get(q) == Some(p)
}

/// Whether every port outside `cut` is sound and holds nothing in `cut`.
/// The ports in `cut` are those that a rewrite has detached and is about to
/// discard.
pub open spec fn wired_but(s: NetState, cut: Set<Ptr>) -> bool {
    forall|p: Ptr|
        #![trigger s.is_port(p)]
        #![trigger cut.contains(p)]
        s.is_port(p) && !cut.contains(p) ==> wire_at(s, p) && !cut.contains(s.get(p).unwrap())
}

/// Whether every port of the net that holds a port is one end of a wire.
pub open spec fn wired(s: NetState) -> bool {
    wired_but(s, Set::empty())
}

/// Whether the ports that hold an agent in `s` hold the same in `t`.
pub open spec fn agents_stay(s: NetState, t: NetState) -> bool {
    forall|p: Ptr| #[trigger]
        s.is_port(p) && !s.get(p).unwrap().is_var() ==> t.get(p) == s.get(p)
}

/// Joining what two sound ports hold detaches both: their former partners
/// are now wired to each other.
#[verifier::rlimit(40)]
pub proof fn lemma_join_cuts(s: NetState, cut: Set<Ptr>, px: Ptr, py: Ptr)
    requires
        s.wf(),
        wired_but(s, cut),
        !cut.contains(px),
        !cut.contains(py),
        px != py,
        s.join(px, py) is Ok,
    ensures
        wired_but(s.join(px, py).unwrap(), cut.insert(px).insert(py)),
        agents_stay(s, s.join(px, py).unwrap()),
{
    let x = s.read(px).unwrap();
    let y = s.read(py).unwrap();
    let t = s.join(px, py).unwrap();
    let c2 = cut.insert(px).insert(py);
    lemma_join_keeps(s, px, py);
    assert(s.is_port(px) && s.is_port(py));
    assert(wire_at(s, px) && wire_at(s, py));
    if x.is_var() {
        lemma_write_wf(s, x, y);
        if y.is_var() {
            lemma_write_wf(s.write(x, y).unwrap(), y, x);
        }
    } else if y.is_var() {
        lemma_write_wf(s, y, x);
    }
    assert forall|p: Ptr| t.is_port(p) && !c2.contains(p) implies wire_at(t, p) && !c2.contains(
        t.get(p).unwrap(),
    ) by {
        assert(s.is_port(p));
        assert(wire_at(s, p));
        let q = s.get(p).unwrap();
        if q.is_var() {
            assert(s.is_port(q));
        }
    }
    assert forall|p: Ptr| #[trigger] s.is_port(p) && !s.get(p).unwrap().is_var() implies t.get(p)
        == s.get(p) by {}
}

/// Joining what a sound port holds with an agent detaches the port: its
/// former partner now holds the agent.
#[verifier::rlimit(40)]
pub proof fn lemma_wire_cuts(s: NetState, cut: Set<Ptr>, px: Ptr, v: Ptr)
    requires
        s.wf(),
        wired_but(s, cut),
        !cut.contains(px),
        !v.is_var(),
        !cut.contains(v),
        s.wire(px, v) is Ok,
    ensures
        wired_but(s.wire(px, v).unwrap(), cut.insert(px)),
        agents_stay(s, s.wire(px, v).unwrap()),
{
    let x = s.read(px).unwrap();
    let t = s.wire(px, v).unwrap();
    let c2 = cut.insert(px);
    lemma_wire_keeps(s, px, v);
    assert(s.is_port(px));
    assert(wire_at(s, px));
    if x.is_var() {
        lemma_write_wf(s, x, v);
    }
    assert forall|p: Ptr| t.is_port(p) && !c2.contains(p) implies wire_at(t, p) && !c2.contains(
        t.get(p).unwrap(),
    ) by {
        assert(s.is_port(p));
        assert(wire_at(s, p));
        let q = s.get(p).unwrap();
        if q.is_var() {
            assert(s.is_port(q));
        }
    }
    assert forall|p: Ptr| #[trigger] s.is_port(p) && !s.get(p).unwrap().is_var() implies t.get(p)
        == s.get(p) by {}
}

/// Removing an agent whose ports are both detached leaves the rest sound.
pub proof fn lemma_release_cut(s: NetState, cut: Set<Ptr>, a: u64)
    requires
        s.wf(),
        wired_but(s, cut),
        cut.contains(Ptr::Aux1(a)),
        cut.contains(Ptr::Aux2(a)),
        s.release(a) is Ok,
    ensures
        wired_but(s.release(a).unwrap(), cut.remove(Ptr::Aux1(a)).remove(Ptr::Aux2(a))),
{
    let t = s.release(a).unwrap();
    let c2 = cut.remove(Ptr::Aux1(a)).remove(Ptr::Aux2(a));
    lemma_release_wf(s, a);
    assert forall|p: Ptr| t.is_port(p) && !c2.contains(p) implies wire_at(t, p) && !c2.contains(
        t.get(p).unwrap(),
    ) by {
        assert(s.is_port(p));
        assert(!cut.contains(p));
        assert(wire_at(s, p));
        let q = s.get(p).unwrap();
        if q.is_var() {
            assert(s.is_port(q));
        }
    }
}

/// Whether both ports of the agent at `a` hold agents.
pub open spec fn holds_agents(s: NetState, a: u64) -> bool {
    s.is_live(a) && !s.nodes[a as int].p1.is_var() && !s.nodes[a as int].p2.is_var()
}

/// A new agent, which holds erasers, leaves the wires sound.
pub proof fn lemma_allocate_wired(s: NetState)
    requires
        s.wf(),
        wired(s),
        s.allocate() is Ok,
    ensures
        wired(s.allocate().unwrap().0),
        holds_agents(s.allocate().unwrap().0, s.allocate().unwrap().1),
        forall|a: u64| holds_agents(s, a) ==> holds_agents(s.allocate().unwrap().0, a),
{
    let (t, a) = s.allocate().unwrap();
    lemma_alloc_wf(s);
    assert forall|p: Ptr| t.is_port(p) implies wire_at(t, p) by {
        if p != Ptr::Aux1(a) && p != Ptr::Aux2(a) {
            assert(s.is_port(p));
            assert(wire_at(s, p));
            let q = s.get(p).unwrap();
            if q.is_var() {
                assert(s.is_port(q));
            }
        }
    }
}

/// Wiring four agents that hold agents to each other crosswise leaves the
/// rest sound.
#[verifier::rlimit(40)]
pub proof fn lemma_mesh_wired(s: NetState, cut: Set<Ptr>, b1: u64, b2: u64, a1: u64, a2: u64)
    requires
        s.wf(),
        wired_but(s, cut),
        holds_agents(s, b1),
        holds_agents(s, b2),
        holds_agents(s, a1),
        holds_agents(s, a2),
        b1 != b2 && b1 != a1 && b1 != a2 && b2 != a1 && b2 != a2 && a1 != a2,
        forall|p: Ptr| #[trigger]
            cut.contains(p) ==> p.val() != b1 && p.val() != b2 && p.val() != a1 && p.val() != a2,
        s.mesh(b1, b2, a1, a2) is Ok,
    ensures
        wired_but(s.mesh(b1, b2, a1, a2).unwrap(), cut),
{
    let s1 = s.fill(b1, Ptr::Aux1(a1), Ptr::Aux1(a2)).unwrap();
    lemma_fill_keeps(s, b1, Ptr::Aux1(a1), Ptr::Aux1(a2));
    let s2 = s1.fill(b2, Ptr::Aux2(a1), Ptr::Aux2(a2)).unwrap();
    lemma_fill_keeps(s1, b2, Ptr::Aux2(a1), Ptr::Aux2(a2));
    let s3 = s2.fill(a1, Ptr::Aux1(b1), Ptr::Aux1(b2)).unwrap();
    lemma_fill_keeps(s2, a1, Ptr::Aux1(b1), Ptr::Aux1(b2));
    let t = s3.fill(a2, Ptr::Aux2(b1), Ptr::Aux2(b2)).unwrap();
    lemma_fill_keeps(s3, a2, Ptr::Aux2(b1), Ptr::Aux2(b2));
    assert(t.nodes[b1 as int].p1 == Ptr::Aux1(a1) && t.nodes[b1 as int].p2 == Ptr::Aux1(a2));
    assert(t.nodes[b2 as int].p1 == Ptr::Aux2(a1) && t.nodes[b2 as int].p2 == Ptr::Aux2(a2));
    assert(t.nodes[a1 as int].p1 == Ptr::Aux1(b1) && t.nodes[a1 as int].p2 == Ptr::Aux1(b2));
    assert(t.nodes[a2 as int].p1 == Ptr::Aux2(b1) && t.nodes[a2 as int].p2 == Ptr::Aux2(b2));
    assert(t.root == s.root);
    assert forall|i: int|
        0 <= i < s.nodes.len() && i != b1 && i != b2 && i != a1 && i != a2 implies t.nodes[i]
        == s.nodes[i] by {}
    assert forall|p: Ptr| t.is_port(p) && !cut.contains(p) implies wire_at(t, p) && !cut.contains(
        t.get(p).unwrap(),
    ) by {
        assert(s.is_port(p));
        if p is Root || (p.val() != b1 && p.val() != b2 && p.val() != a1 && p.val() != a2) {
            assert(t.get(p) == s.get(p));
            assert(wire_at(s, p));
            let q = s.get(p).unwrap();
            if q.is_var() {
                assert(s.is_port(q));
                assert(s.get(q) == Some(p));
                if !(q is Root) {
                    assert(q.val() != b1 && q.val() != b2 && q.val() != a1 && q.val() != a2);
                }
                assert(t.get(q) == s.get(q));
            }
        } else {
            let q = t.get(p).unwrap();
            assert(t.is_port(q));
        }
    }
}

/// What copying a template does, slot by slot: the places are distinct
/// slots that were free and now hold the moved agents; every other slot,
/// and the root, is as before.
pub proof fn lemma_instantiate_slots(s: NetState, t: TemplateState)
    requires
        s.wf(),
        s.instantiate(t) is Ok,
    ensures
        ({
            let locs = t.places(s.free);
            let after = s.instantiate(t).unwrap().0;
            &&& after.wf()
            &&& after.root == s.root
            &&& after.nodes.len() == s.nodes.len()
            &&& locs.len() == t.nodes.len()
            &&& locs.no_duplicates()
            &&& forall|i: int| 0 <= i < locs.len() ==> !s.is_live(#[trigger] locs[i])
            &&& forall|i: int|
                0 <= i < locs.len() ==> after.nodes[(#[trigger] locs[i]) as int] == reloc_node(
                    t.nodes[i],
                    locs,
                )
            &&& forall|j: int|
                0 <= j < s.nodes.len() && (forall|i: int| 0 <= i < locs.len() ==> locs[i] != j)
                    ==> (#[trigger] after.nodes[j]) == s.nodes[j]
        }),
{
    let n = t.nodes.len();
    let m = s.free.len();
    let locs = t.places(s.free);
    lemma_instantiate_wf(s, t);
    assert forall|i: int, j: int| 0 <= i < n && 0 <= j < n && i != j implies locs[i] != locs[j] by {
        assert(locs[i] == s.free[m - 1 - i]);
        assert(locs[j] == s.free[m - 1 - j]);
    }
    assert forall|i: int| 0 <= i < n implies (#[trigger] locs[i]) < s.nodes.len() && !s.is_live(
        locs[i],
    ) by {
        assert(locs[i] == s.free[m - 1 - i]);
    }
    lemma_place(s.nodes, t.nodes, locs, n);
}

/// The ports that a copy of a template leaves detached: the port that the
/// template offers at its root, if it offers one.
pub open spec fn loose_end(r: Ptr) -> Set<Ptr> {
    if r.is_var() {
        Set::empty().insert(r)
    } else {
        Set::empty()
    }
}

/// A copy of a template without dangling ports is sound but for its root
/// port, which waits to be joined.
#[verifier::rlimit(40)]
pub proof fn lemma_instantiate_wired(s: NetState, t: TemplateState)
    requires
        s.wf(),
        wired(s),
        t.closed(),
        s.instantiate(t) is Ok,
    ensures
        wired_but(s.instantiate(t).unwrap().0, loose_end(s.instantiate(t).unwrap().1)),
        s.instantiate(t).unwrap().1.is_var() ==> s.instantiate(t).unwrap().0.is_port(
            s.instantiate(t).unwrap().1,
        ) && !s.is_port(s.instantiate(t).unwrap().1),
        forall|p: Ptr| s.is_port(p) ==> s.instantiate(t).unwrap().0.is_port(p) && s.instantiate(
            t,
        ).unwrap().0.get(p) == s.get(p),
{
    let locs = t.places(s.free);
    let (after, r) = s.instantiate(t).unwrap();
    let cut = loose_end(r);
    let n = t.nodes.len();
    lemma_instantiate_slots(s, t);
    crate::net::lemma_free_fits(s);
    assert(n <= usize::MAX);
    assert forall|p: Ptr| s.is_port(p) implies after.is_port(p) && after.get(p) == s.get(p) by {
        if !(p is Root) {
            let j = p.val() as int;
            assert(forall|i: int| 0 <= i < locs.len() ==> locs[i] != j);
            assert(after.nodes[j] == s.nodes[j]);
        }
    }
    assert forall|p: Ptr| after.is_port(p) && !cut.contains(p) implies wire_at(after, p)
        && !cut.contains(after.get(p).unwrap()) by {
        if s.is_port(p) {
            assert(wire_at(s, p));
            let q = s.get(p).unwrap();
            if q.is_var() {
                assert(s.is_port(q));
            }
        } else {
            let j = p.val();
            if forall|i: int| 0 <= i < locs.len() ==> locs[i] != j {
                assert(after.nodes[j as int] == s.nodes[j as int]);
                assert(false);
            }
            let i = choose|i: int| 0 <= i < locs.len() && locs[i] == j;
            assert(after.nodes[locs[i] as int] == reloc_node(t.nodes[i], locs));
            let pt = p.at(i as u64);
            assert(t.is_port(pt));
            let qt = t.get(pt);
            assert(after.get(p) == Some(reloc(qt, locs)));
            if qt.is_var() {
                if qt is Root {
                    assert(t.root == pt);
                    assert(r == p);
                } else {
                    let k = qt.val() as int;
                    assert(after.nodes[locs[k] as int] == reloc_node(t.nodes[k], locs));
                    assert(t.get(qt) == pt);
                    if t.root.is_var() {
                        assert(qt != t.root);
                        let kr = t.root.val() as int;
                        assert(after.nodes[locs[kr] as int] == reloc_node(t.nodes[kr], locs));
                    }
                }
            }
        }
    }
    if r.is_var() {
        let kr = t.root.val() as int;
        assert(after.nodes[locs[kr] as int] == reloc_node(t.nodes[kr], locs));
    }
}

} // verus!
