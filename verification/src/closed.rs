//! Compilation leaves no dangling port: in the template of a definition
//! every port that holds a port is one end of a wire.

use vstd::prelude::*;
use crate::book::inside;
use crate::compile::{
    bits, compiled, count, def_size, def_vars, find, is_slot, lemma_check, lemma_count_add, lemma_find, pairs_size, pairs_vars, size, vars_of, Draft, DIGIT_ONE, DIGIT_ZERO,
};
use crate::syntax::DefState;
use crate::syntax::Term;
use crate::ptr::Ptr;

verus! {

impl Draft {
    /// What the port `p` of the draft holds; the root stands for every
    /// pointer that is no auxiliary port.
    pub open spec fn get(self, p: Ptr) -> Ptr {
        match p {
            Ptr::Aux1(i) => self.nodes[i as int].p1,
            Ptr::Aux2(i) => self.nodes[i as int].p2,
            _ => self.root,
        }
    }

    /// Whether `p` is the root port or a port of an agent of the draft.
    pub open spec fn is_port(self, p: Ptr) -> bool {
        is_slot(p, self.nodes.len())
    }

    /// Whether the scope holds the variable `x`.
    pub open spec fn has_name(self, x: u64) -> bool {
        exists|k: int| 0 <= k < self.scope.len() && #[trigger] self.scope[k].0 == x
    }

    /// Whether the scope holds the port `p`.
    pub open spec fn has_port(self, p: Ptr) -> bool {
        exists|k: int| 0 <= k < self.scope.len() && #[trigger] self.scope[k].1 == p
    }
}

/// The state of a draft between two steps of the compiler. The ports in
/// `pend` are those whose content is yet to be stored. Every other port
/// that holds a port either holds itself and waits in the scope for the
/// second occurrence of its variable, or is one end of a wire whose other
/// end is not pending either.
#[verifier::opaque]
pub open spec fn good(d: Draft, pend: Set<Ptr>) -> bool {
    &&& d.ok()
    &&& d.nodes.len() <= u64::MAX
    &&& forall|p: Ptr| #[trigger] pend.contains(p) ==> d.is_port(p)
    &&& forall|j: int, k: int|
        0 <= j < k < d.scope.len() ==> (#[trigger] d.scope[j]).0 != (#[trigger] d.scope[k]).0
            && d.scope[j].1 != d.scope[k].1
    &&& forall|k: int|
        0 <= k < d.scope.len() ==> !pend.contains((#[trigger] d.scope[k]).1) && d.get(d.scope[k].1)
            == d.scope[k].1
    &&& forall|p: Ptr| #[trigger]
        d.is_port(p) && !pend.contains(p) && d.get(p).is_var() ==> (if d.get(p) == p {
            d.has_port(p)
        } else {
            !pend.contains(d.get(p)) && d.get(d.get(p)) == p
        })
}

/// A pending port is a port of the draft, and the draft is sound.
pub proof fn lemma_pending_port(d: Draft, pend: Set<Ptr>, p: Ptr)
    requires
        good(d, pend),
    ensures
        d.ok(),
        d.nodes.len() <= u64::MAX,
        pend.contains(p) ==> d.is_port(p),
{
    reveal(good);
}

/// A port in the scope is a port of the draft that is not pending and
/// holds itself.
pub proof fn lemma_scope_port(d: Draft, pend: Set<Ptr>, k: int)
    requires
        good(d, pend),
        0 <= k < d.scope.len(),
    ensures
        d.is_port(d.scope[k].1),
        !pend.contains(d.scope[k].1),
        d.get(d.scope[k].1) == d.scope[k].1,
{
    reveal(good);
}

/// Storing something at a pending port changes nothing for the others.
#[verifier::rlimit(40)]
pub proof fn lemma_set_pending(d: Draft, pend: Set<Ptr>, u: Ptr, v: Ptr)
    requires
        good(d, pend),
        pend.contains(u),
        inside(v, d.nodes.len()),
    ensures
        good(d.set(u, v), pend),
        d.set(u, v).get(u) == v,
        d.set(u, v).scope == d.scope,
        d.set(u, v).nodes.len() == d.nodes.len(),
        forall|p: Ptr| d.is_port(p) && p != u ==> #[trigger] d.set(u, v).get(p) == d.get(p),
        forall|p: Ptr| pend.contains(p) && p != u ==> #[trigger] d.set(u, v).get(p) == d.get(p),
{
    reveal(good);
    let e = d.set(u, v);
    assert(d.is_port(u));
    crate::compile::lemma_set_ok(d, u, v);
    assert forall|p: Ptr| d.is_port(p) && p != u implies #[trigger] e.get(p) == d.get(p) by {}
    assert forall|k: int| 0 <= k < e.scope.len() implies !pend.contains((#[trigger] e.scope[k]).1)
        && e.get(e.scope[k].1) == e.scope[k].1 by {
        assert(d.is_port(d.scope[k].1));
    }
    assert forall|p: Ptr| #[trigger]
        e.is_port(p) && !pend.contains(p) && e.get(p).is_var() implies (if e.get(p) == p {
        e.has_port(p)
    } else {
        !pend.contains(e.get(p)) && e.get(e.get(p)) == p
    }) by {
        assert(d.is_port(p));
        assert(e.get(p) == d.get(p));
        let q = d.get(p);
        if q != p {
            assert(d.is_port(q));
            assert(e.get(q) == d.get(q));
        } else {
            let k = choose|k: int| 0 <= k < d.scope.len() && #[trigger] d.scope[k].1 == p;
            assert(e.scope[k].1 == p);
        }
    }
}

/// A pending port that holds an agent is settled.
pub proof fn lemma_settle_agent(d: Draft, pend: Set<Ptr>, u: Ptr)
    requires
        good(d, pend),
        pend.contains(u),
        !d.get(u).is_var(),
    ensures
        good(d, pend.remove(u)),
{
    reveal(good);
    let rest = pend.remove(u);
    assert forall|p: Ptr| #[trigger]
        d.is_port(p) && !rest.contains(p) && d.get(p).is_var() implies (if d.get(p) == p {
        d.has_port(p)
    } else {
        !rest.contains(d.get(p)) && d.get(d.get(p)) == p
    }) by {
        assert(!pend.contains(p));
    }
}

/// Two pending ports that hold each other are settled.
pub proof fn lemma_settle_wire(d: Draft, pend: Set<Ptr>, u: Ptr, v: Ptr)
    requires
        good(d, pend),
        pend.contains(u),
        pend.contains(v),
        u != v,
        d.get(u) == v,
        d.get(v) == u,
    ensures
        good(d, pend.remove(u).remove(v)),
{
    reveal(good);
    let rest = pend.remove(u).remove(v);
    assert forall|p: Ptr| #[trigger]
        d.is_port(p) && !rest.contains(p) && d.get(p).is_var() implies (if d.get(p) == p {
        d.has_port(p)
    } else {
        !rest.contains(d.get(p)) && d.get(d.get(p)) == p
    }) by {
        if p != u && p != v {
            assert(!pend.contains(p));
        }
    }
}

/// One more agent, both of whose ports are pending.
#[verifier::rlimit(40)]
pub proof fn lemma_grow_good(d: Draft, pend: Set<Ptr>, p1: Ptr, p2: Ptr)
    requires
        good(d, pend),
        d.nodes.len() < u64::MAX,
        inside(p1, d.nodes.len() + 1),
        inside(p2, d.nodes.len() + 1),
    ensures
        good(
            d.grow(p1, p2),
            pend.insert(Ptr::Aux1(d.nodes.len() as u64)).insert(Ptr::Aux2(d.nodes.len() as u64)),
        ),
        !pend.contains(Ptr::Aux1(d.nodes.len() as u64)),
        !pend.contains(Ptr::Aux2(d.nodes.len() as u64)),
        d.grow(p1, p2).scope == d.scope,
        d.grow(p1, p2).get(Ptr::Aux1(d.nodes.len() as u64)) == p1,
        d.grow(p1, p2).get(Ptr::Aux2(d.nodes.len() as u64)) == p2,
{
    reveal(good);
    let i = d.nodes.len() as u64;
    let e = d.grow(p1, p2);
    let more = pend.insert(Ptr::Aux1(i)).insert(Ptr::Aux2(i));
    crate::compile::lemma_grow_ok(d, p1, p2);
    if pend.contains(Ptr::Aux1(i)) {
        assert(d.is_port(Ptr::Aux1(i)));
    }
    if pend.contains(Ptr::Aux2(i)) {
        assert(d.is_port(Ptr::Aux2(i)));
    }
    assert forall|p: Ptr| d.is_port(p) implies e.is_port(p) && #[trigger] e.get(p) == d.get(p) by {}
    assert forall|k: int| 0 <= k < e.scope.len() implies !more.contains((#[trigger] e.scope[k]).1)
        && e.get(e.scope[k].1) == e.scope[k].1 by {
        assert(d.is_port(d.scope[k].1));
    }
    assert forall|p: Ptr| #[trigger]
        e.is_port(p) && !more.contains(p) && e.get(p).is_var() implies (if e.get(p) == p {
        e.has_port(p)
    } else {
        !more.contains(e.get(p)) && e.get(e.get(p)) == p
    }) by {
        assert(d.is_port(p));
        assert(e.get(p) == d.get(p));
        let q = d.get(p);
        assert(d.is_port(q));
        if q == p {
            let k = choose|k: int| 0 <= k < d.scope.len() && #[trigger] d.scope[k].1 == p;
            assert(e.scope[k].1 == p);
        }
    }
}

/// One more pending pair of agents changes nothing for the ports.
pub proof fn lemma_act_good(d: Draft, pend: Set<Ptr>, a: Ptr, b: Ptr)
    requires
        good(d, pend),
        !a.is_var(),
        !b.is_var(),
        inside(a, d.nodes.len()),
        inside(b, d.nodes.len()),
    ensures
        good(Draft { acts: d.acts.push((a, b)), ..d }, pend),
{
    reveal(good);
    let e = Draft { acts: d.acts.push((a, b)), ..d };
    assert forall|k: int| 0 <= k < e.acts.len() implies {
        &&& inside((#[trigger] e.acts[k]).0, e.nodes.len())
        &&& inside(e.acts[k].1, e.nodes.len())
        &&& !e.acts[k].0.is_var()
        &&& !e.acts[k].1.is_var()
    } by {
        if k < d.acts.len() {
            assert(e.acts[k] == d.acts[k]);
        }
    }
    assert forall|p: Ptr| #[trigger]
        e.is_port(p) && !pend.contains(p) && e.get(p).is_var() implies (if e.get(p) == p {
        e.has_port(p)
    } else {
        !pend.contains(e.get(p)) && e.get(e.get(p)) == p
    }) by {
        assert(d.is_port(p));
        if d.get(p) == p {
            let k = choose|k: int| 0 <= k < d.scope.len() && #[trigger] d.scope[k].1 == p;
            assert(e.scope[k].1 == p);
        }
    }
}

/// An entry leaves the scope; its port is pending from then on.
#[verifier::rlimit(40)]
pub proof fn lemma_unscope(d: Draft, pend: Set<Ptr>, k: int)
    requires
        good(d, pend),
        0 <= k < d.scope.len(),
    ensures
        good(Draft { scope: d.scope.remove(k), ..d }, pend.insert(d.scope[k].1)),
        !(Draft { scope: d.scope.remove(k), ..d }).has_name(d.scope[k].0),
        forall|x: u64|
            x != d.scope[k].0 ==> (Draft { scope: d.scope.remove(k), ..d }).has_name(x)
                == d.has_name(x),
{
    reveal(good);
    let e = Draft { scope: d.scope.remove(k), ..d };
    let q0 = d.scope[k].1;
    let more = pend.insert(q0);
    assert(d.is_port(q0));
    assert forall|j: int| 0 <= j < e.scope.len() implies (#[trigger] e.scope[j]) == d.scope[if j
        < k {
        j
    } else {
        j + 1
    }] by {}
    assert forall|i: int, j: int| 0 <= i < j < e.scope.len() implies (#[trigger] e.scope[i]).0 != (
    #[trigger] e.scope[j]).0 && e.scope[i].1 != e.scope[j].1 by {
        let i2 = if i < k {
            i
        } else {
            i + 1
        };
        let j2 = if j < k {
            j
        } else {
            j + 1
        };
        assert(e.scope[i] == d.scope[i2]);
        assert(e.scope[j] == d.scope[j2]);
    }
    assert forall|j: int| 0 <= j < e.scope.len() implies !more.contains((#[trigger] e.scope[j]).1)
        && e.get(e.scope[j].1) == e.scope[j].1 by {
        let j2 = if j < k {
            j
        } else {
            j + 1
        };
        assert(e.scope[j] == d.scope[j2]);
        if j2 < k {
            assert(d.scope[j2].1 != d.scope[k].1);
        } else {
            assert(d.scope[k].1 != d.scope[j2].1);
        }
    }
    assert forall|p: Ptr| #[trigger]
        e.is_port(p) && !more.contains(p) && e.get(p).is_var() implies (if e.get(p) == p {
        e.has_port(p)
    } else {
        !more.contains(e.get(p)) && e.get(e.get(p)) == p
    }) by {
        assert(d.is_port(p));
        if d.get(p) == p {
            let j = choose|j: int| 0 <= j < d.scope.len() && #[trigger] d.scope[j].1 == p;
            let j1 = if j < k {
                j
            } else {
                j - 1
            };
            assert(e.scope[j1] == d.scope[j]);
            assert(e.scope[j1].1 == p);
        }
    }
    assert(!e.has_name(d.scope[k].0)) by {
        if e.has_name(d.scope[k].0) {
            let j = choose|j: int| 0 <= j < e.scope.len() && #[trigger] e.scope[j].0 == d.scope[k].0;
            let j2 = if j < k {
                j
            } else {
                j + 1
            };
            assert(e.scope[j] == d.scope[j2]);
            if j2 < k {
                assert(d.scope[j2].0 != d.scope[k].0);
            } else {
                assert(d.scope[k].0 != d.scope[j2].0);
            }
        }
    }
    assert forall|x: u64| x != d.scope[k].0 implies e.has_name(x) == d.has_name(x) by {
        if d.has_name(x) {
            let j = choose|j: int| 0 <= j < d.scope.len() && #[trigger] d.scope[j].0 == x;
            let j1 = if j < k {
                j
            } else {
                j - 1
            };
            assert(e.scope[j1] == d.scope[j]);
            assert(e.scope[j1].0 == x);
        }
        if e.has_name(x) {
            let j = choose|j: int| 0 <= j < e.scope.len() && #[trigger] e.scope[j].0 == x;
            let j2 = if j < k {
                j
            } else {
                j + 1
            };
            assert(e.scope[j] == d.scope[j2]);
            assert(d.scope[j2].0 == x);
        }
    }
}

/// A pending port that holds itself enters the scope under a new name and
/// is settled.
#[verifier::rlimit(40)]
pub proof fn lemma_scope_open(d: Draft, pend: Set<Ptr>, x: u64, u: Ptr)
    requires
        good(d, pend),
        pend.contains(u),
        d.get(u) == u,
        !d.has_name(x),
    ensures
        good(Draft { scope: d.scope.push((x, u)), ..d }, pend.remove(u)),
        (Draft { scope: d.scope.push((x, u)), ..d }).has_name(x),
        forall|y: u64|
            y != x ==> (Draft { scope: d.scope.push((x, u)), ..d }).has_name(y) == d.has_name(y),
{
    reveal(good);
    let e = Draft { scope: d.scope.push((x, u)), ..d };
    let rest = pend.remove(u);
    let n = d.scope.len() as int;
    assert(e.scope[n] == (x, u));
    assert forall|j: int| 0 <= j < n implies (#[trigger] e.scope[j]) == d.scope[j] by {}
    assert forall|i: int, j: int| 0 <= i < j < e.scope.len() implies (#[trigger] e.scope[i]).0 != (
    #[trigger] e.scope[j]).0 && e.scope[i].1 != e.scope[j].1 by {
        assert(e.scope[i] == d.scope[i]);
        if j == n {
            assert(d.scope[i].0 != x);
            assert(!pend.contains(d.scope[i].1));
        } else {
            assert(e.scope[j] == d.scope[j]);
        }
    }
    assert forall|j: int| 0 <= j < e.scope.len() implies !rest.contains((#[trigger] e.scope[j]).1)
        && e.get(e.scope[j].1) == e.scope[j].1 by {
        if j < n {
            assert(e.scope[j] == d.scope[j]);
        }
    }
    assert forall|p: Ptr| #[trigger]
        e.is_port(p) && !rest.contains(p) && e.get(p).is_var() implies (if e.get(p) == p {
        e.has_port(p)
    } else {
        !rest.contains(e.get(p)) && e.get(e.get(p)) == p
    }) by {
        assert(d.is_port(p));
        if p == u {
            assert(e.scope[n].1 == p);
        } else {
            assert(!pend.contains(p));
            if d.get(p) == p {
                let k = choose|k: int| 0 <= k < d.scope.len() && #[trigger] d.scope[k].1 == p;
                assert(e.scope[k] == d.scope[k]);
                assert(e.scope[k].1 == p);
            } else {
                assert(d.get(p) != u);
            }
        }
    }
    assert(e.scope[n].0 == x);
    assert forall|y: u64| y != x implies e.has_name(y) == d.has_name(y) by {
        if d.has_name(y) {
            let j = choose|j: int| 0 <= j < d.scope.len() && #[trigger] d.scope[j].0 == y;
            assert(e.scope[j] == d.scope[j]);
            assert(e.scope[j].0 == y);
        }
        if e.has_name(y) {
            let j = choose|j: int| 0 <= j < e.scope.len() && #[trigger] e.scope[j].0 == y;
            assert(e.scope[j] == d.scope[j]);
            assert(d.scope[j].0 == y);
        }
    }
}

/// An occurrence of a variable at a pending port settles the port: the
/// first occurrence opens the variable, the second one closes it with a
/// wire. Other pending ports are not touched.
#[verifier::rlimit(40)]
pub proof fn lemma_var_good(d: Draft, pend: Set<Ptr>, x: u64, at: Ptr)
    requires
        good(d, pend),
        pend.contains(at),
    ensures
        good(d.var(x, at).0.set(at, d.var(x, at).1), pend.remove(at)),
        d.var(x, at).0.set(at, d.var(x, at).1).nodes.len() == d.nodes.len(),
        inside(d.var(x, at).1, d.nodes.len()),
        d.var(x, at).0.set(at, d.var(x, at).1).has_name(x) == !d.has_name(x),
        forall|y: u64|
            y != x ==> d.var(x, at).0.set(at, d.var(x, at).1).has_name(y) == d.has_name(y),
        forall|p: Ptr|
            pend.contains(p) && p != at ==> #[trigger] d.var(x, at).0.set(at, d.var(x, at).1).get(p)
                == d.get(p),
{
    reveal(good);
    lemma_find(d.scope, x, 0);
    let fin = d.var(x, at).0.set(at, d.var(x, at).1);
    assert(d.is_port(at));
    match find(d.scope, x, 0) {
        Some(k) => {
            let k = k as int;
            let q0 = d.scope[k].1;
            assert(d.scope[k].0 == x);
            assert(d.has_name(x));
            let da = Draft { scope: d.scope.remove(k), ..d };
            lemma_unscope(d, pend, k);
            let p1 = pend.insert(q0);
            assert(d.is_port(q0));
            let db = da.set(q0, at);
            lemma_set_pending(da, p1, q0, at);
            let dc = db.set(at, q0);
            lemma_set_pending(db, p1, at, q0);
            assert(dc.get(q0) == db.get(q0));
            lemma_settle_wire(dc, p1, at, q0);
            assert(p1.remove(at).remove(q0) =~= pend.remove(at));
            assert(d.var(x, at).0 == db);
            assert(fin == dc);
            assert forall|p: Ptr| pend.contains(p) && p != at implies #[trigger] fin.get(p) == d.get(
                p,
            ) by {
                assert(d.is_port(p));
                assert(da.get(p) == d.get(p));
            }
        },
        None => {
            assert(!d.has_name(x)) by {
                if d.has_name(x) {
                    let j = choose|j: int| 0 <= j < d.scope.len() && #[trigger] d.scope[j].0 == x;
                    assert(d.scope[j].0 == x);
                }
            }
            let da = d.set(at, at);
            lemma_set_pending(d, pend, at, at);
            lemma_scope_open(da, pend, x, at);
            assert(!da.has_name(x));
            assert(fin == (Draft { scope: da.scope.push((x, at)), ..da }));
            assert forall|y: u64| y != x implies fin.has_name(y) == d.has_name(y) by {
                assert(da.scope == d.scope);
                assert(da.has_name(y) == d.has_name(y));
            }
        },
    }
}

/// The pending ports after a term was put at `at` and gave `p`: `at` is
/// settled if it is a port; otherwise the term stands alone, and a port
/// that it gives waits to be joined.
pub open spec fn settled(pend: Set<Ptr>, at: Ptr, p: Ptr) -> Set<Ptr> {
    if at.is_var() {
        pend.remove(at)
    } else if p.is_var() {
        pend.insert(p)
    } else {
        pend
    }
}

/// Whether `n` is odd.
pub open spec fn odd(n: nat) -> bool {
    n % 2 == 1
}

/// A literal settles the port it is put at, adds one agent per binary
/// digit, and leaves the scope and the other pending ports alone.
#[verifier::rlimit(40)]
pub proof fn lemma_literal_good(d: Draft, pend: Set<Ptr>, n: u64, at: Ptr)
    requires
        good(d, pend),
        at.is_var() ==> pend.contains(at),
        !at.is_var() ==> at == Ptr::Era,
        d.nodes.len() + bits(n) <= u64::MAX,
    ensures
        ({
            let r = d.literal(n, at);
            let fin = r.0.set(at, r.1);
            &&& good(fin, settled(pend, at, r.1))
            &&& fin.nodes.len() == d.nodes.len() + bits(n)
            &&& fin.scope == d.scope
            &&& forall|p: Ptr| pend.contains(p) && p != at ==> #[trigger] fin.get(p) == d.get(p)
            &&& !at.is_var() && r.1.is_var() ==> !pend.contains(r.1) && fin.is_port(r.1) && !fin.get(
                r.1,
            ).is_var()
            &&& inside(r.1, fin.nodes.len())
        }),
    decreases n,
{
    let r = d.literal(n, at);
    let fin = r.0.set(at, r.1);
    if n == 0 {
        if at.is_var() {
            lemma_set_pending(d, pend, at, r.1);
            lemma_settle_agent(fin, pend, at);
        }
    } else {
        let i = d.nodes.len() as u64;
        let a1 = Ptr::Aux1(i);
        let a2 = Ptr::Aux2(i);
        let digit = if n % 2 == 0 {
            DIGIT_ZERO
        } else {
            DIGIT_ONE
        };
        lemma_pending_port(d, pend, at);
        let g = d.grow(Ptr::Era, at);
        lemma_grow_good(d, pend, Ptr::Era, at);
        let p0 = pend.insert(a1).insert(a2);
        let d0 = Draft { acts: g.acts.push((Ptr::Ref(digit), Ptr::Con(i))), ..g };
        lemma_act_good(g, p0, Ptr::Ref(digit), Ptr::Con(i));
        assert(d0 == (Draft { acts: d.acts.push((Ptr::Ref(digit), Ptr::Con(i))), ..g }));
        lemma_literal_good(d0, p0, n / 2, a1);
        let r1 = d0.literal(n / 2, a1);
        let d2 = r1.0.set(a1, r1.1);
        assert(r == (d2, a2));
        let p2 = p0.remove(a1);
        assert(d2.get(a2) == d0.get(a2));
        assert(d0.get(a2) == at);
        assert forall|p: Ptr| pend.contains(p) && p != at implies #[trigger] fin.get(p) == d.get(
            p,
        ) by {
            lemma_pending_port(d, pend, p);
            assert(p0.contains(p) && p != a1);
            assert(d2.get(p) == d0.get(p));
            assert(d0.get(p) == d.get(p));
        }
        if at.is_var() {
            lemma_set_pending(d2, p2, at, a2);
            lemma_settle_wire(fin, p2, at, a2);
            assert(p2.remove(at).remove(a2) =~= pend.remove(at));
        } else {
            assert(p2 =~= pend.insert(a2));
        }
    }
}

/// A term settles the port it is put at. It adds as many agents as its
/// size says, toggles in the scope every variable that occurs in it an odd
/// number of times, and leaves the other pending ports alone.
#[verifier::rlimit(40)]
pub proof fn lemma_build_good(d: Draft, pend: Set<Ptr>, t: Term, at: Ptr)
    requires
        good(d, pend),
        at.is_var() ==> pend.contains(at),
        !at.is_var() ==> at == Ptr::Era,
        t is Var ==> at.is_var(),
        d.nodes.len() + size(t) <= u64::MAX,
    ensures
        ({
            let r = d.build(t, at);
            let fin = r.0.set(at, r.1);
            &&& good(fin, settled(pend, at, r.1))
            &&& fin.nodes.len() == d.nodes.len() + size(t)
            &&& forall|x: u64| fin.has_name(x) == (d.has_name(x) != odd(count(vars_of(t), x)))
            &&& forall|p: Ptr| pend.contains(p) && p != at ==> #[trigger] fin.get(p) == d.get(p)
            &&& !at.is_var() && r.1.is_var() ==> !pend.contains(r.1) && fin.is_port(r.1) && !fin.get(
                r.1,
            ).is_var()
            &&& inside(r.1, fin.nodes.len())
        }),
    decreases t,
{
    let res = d.build(t, at);
    let head = res.1;
    let fin = res.0.set(at, head);
    match t {
        Term::Var(x) => {
            lemma_var_good(d, pend, x, at);
            assert(vars_of(t) =~= seq![x]);
            assert(seq![x].drop_last() =~= Seq::<u64>::empty());
            assert forall|y: u64| fin.has_name(y) == (d.has_name(y) != odd(count(vars_of(t), y))) by {
                reveal_with_fuel(count, 2);
                assert(count(seq![x], y) == if y == x {
                    1nat
                } else {
                    0nat
                });
            }
        },
        Term::Lit(n) => {
            lemma_literal_good(d, pend, n, at);
            assert(vars_of(t) =~= Seq::<u64>::empty());
        },
        Term::Ctr(_, l, r) | Term::Opr(_, l, r) => {
            let i = d.nodes.len() as u64;
            let a1 = Ptr::Aux1(i);
            let a2 = Ptr::Aux2(i);
            let g = d.grow(Ptr::Era, Ptr::Era);
            lemma_grow_good(d, pend, Ptr::Era, Ptr::Era);
            let p0 = pend.insert(a1).insert(a2);
            lemma_build_good(g, p0, *l, a1);
            let r1 = g.build(*l, a1);
            let d2 = r1.0.set(a1, r1.1);
            let p2 = p0.remove(a1);
            assert(p2.contains(a2));
            lemma_build_good(d2, p2, *r, a2);
            let r3 = d2.build(*r, a2);
            let d4 = r3.0.set(a2, r3.1);
            let p4 = p2.remove(a2);
            assert(p4 =~= pend);
            assert(res.0 == d4);
            assert(head.is_ctr() && head.val() == i);
            lemma_pending_port(d, pend, at);
            if at.is_var() {
                lemma_set_pending(d4, pend, at, head);
                lemma_settle_agent(fin, pend, at);
            }
            assert(vars_of(t) == vars_of(*l) + vars_of(*r));
            assert forall|x: u64|
                fin.has_name(x) == (d.has_name(x) != odd(count(vars_of(t), x))) by {
                lemma_count_add(vars_of(*l), vars_of(*r), x);
                assert(g.has_name(x) == d.has_name(x));
                assert(fin.scope == d4.scope);
                assert(fin.has_name(x) == d4.has_name(x));
            }
            assert forall|p: Ptr| pend.contains(p) && p != at implies #[trigger] fin.get(p) == d.get(
                p,
            ) by {
                lemma_pending_port(d, pend, p);
                assert(p0.contains(p) && p != a1);
                assert(p2.contains(p) && p != a2);
                assert(d2.get(p) == g.get(p));
                assert(d4.get(p) == d2.get(p));
                assert(g.get(p) == d.get(p));
            }
        },
        _ => {
            assert(vars_of(t) =~= Seq::<u64>::empty());
            if at.is_var() {
                lemma_set_pending(d, pend, at, head);
                lemma_settle_agent(fin, pend, at);
            }
        },
    }
}

/// A pair of terms, neither a bare variable, leaves nothing pending.
#[verifier::rlimit(40)]
pub proof fn lemma_pair_good(d: Draft, a: Term, b: Term)
    requires
        good(d, Set::empty()),
        !(a is Var),
        !(b is Var),
        d.nodes.len() + size(a) + size(b) <= u64::MAX,
    ensures
        good(d.pair(a, b), Set::empty()),
        d.pair(a, b).nodes.len() == d.nodes.len() + size(a) + size(b),
        forall|x: u64|
            d.pair(a, b).has_name(x) == (d.has_name(x) != odd(count(vars_of(a) + vars_of(b), x))),
{
    let none = Set::<Ptr>::empty();
    let r1 = d.build(a, Ptr::Era);
    let d1 = r1.0;
    let pa = r1.1;
    lemma_build_good(d, none, a, Ptr::Era);
    assert(d1.set(Ptr::Era, pa) == d1);
    let p1 = settled(none, Ptr::Era, pa);
    let r2 = d1.build(b, Ptr::Era);
    let d2 = r2.0;
    let pb = r2.1;
    lemma_build_good(d1, p1, b, Ptr::Era);
    assert(d2.set(Ptr::Era, pb) == d2);
    let p2 = settled(p1, Ptr::Era, pb);
    let fin = d2.join(pa, pb);
    lemma_pending_port(d2, p2, pa);
    lemma_pending_port(d2, p2, pb);
    if pa.is_var() {
        assert(p1.contains(pa));
        if pb.is_var() {
            let j1 = d2.set(pa, pb);
            lemma_set_pending(d2, p2, pa, pb);
            lemma_set_pending(j1, p2, pb, pa);
            lemma_settle_wire(fin, p2, pa, pb);
            assert(p2.remove(pa).remove(pb) =~= none);
        } else {
            lemma_set_pending(d2, p2, pa, pb);
            lemma_settle_agent(fin, p2, pa);
            assert(p2.remove(pa) =~= none);
        }
    } else if pb.is_var() {
        lemma_set_pending(d2, p2, pb, pa);
        lemma_settle_agent(fin, p2, pb);
        assert(p2.remove(pb) =~= none);
    } else {
        assert(p2 =~= none);
        lemma_act_good(d2, none, pa, pb);
    }
    assert forall|x: u64|
        fin.has_name(x) == (d.has_name(x) != odd(count(vars_of(a) + vars_of(b), x))) by {
        lemma_count_add(vars_of(a), vars_of(b), x);
        assert(fin.scope == d2.scope);
        assert(fin.has_name(x) == d2.has_name(x));
    }
}

/// A list of pairs, none with a bare variable as a side, leaves nothing
/// pending.
#[verifier::rlimit(40)]
pub proof fn lemma_pairs_good(d: Draft, pairs: Seq<(Term, Term)>)
    requires
        good(d, Set::empty()),
        forall|k: int| 0 <= k < pairs.len() ==> !((#[trigger] pairs[k]).0 is Var) && !(pairs[k].1 is Var),
        d.nodes.len() + pairs_size(pairs) <= u64::MAX,
    ensures
        good(d.pairs(pairs), Set::empty()),
        d.pairs(pairs).nodes.len() == d.nodes.len() + pairs_size(pairs),
        forall|x: u64|
            d.pairs(pairs).has_name(x) == (d.has_name(x) != odd(count(pairs_vars(pairs), x))),
    decreases pairs.len(),
{
    if pairs.len() == 0 {
        assert forall|x: u64|
            d.pairs(pairs).has_name(x) == (d.has_name(x) != odd(count(pairs_vars(pairs), x))) by {
            assert(count(pairs_vars(pairs), x) == 0);
        }
    } else {
        let front = pairs.drop_last();
        let (a, b) = pairs.last();
        assert forall|k: int| 0 <= k < front.len() implies !((#[trigger] front[k]).0 is Var) && !(
        front[k].1 is Var) by {
            assert(front[k] == pairs[k]);
        }
        assert(pairs[pairs.len() - 1] == (a, b));
        lemma_pairs_good(d, front);
        let mid = d.pairs(front);
        lemma_pair_good(mid, a, b);
        assert forall|x: u64|
            d.pairs(pairs).has_name(x) == (d.has_name(x) != odd(count(pairs_vars(pairs), x))) by {
            lemma_count_add(pairs_vars(front) + vars_of(a), vars_of(b), x);
            lemma_count_add(pairs_vars(front), vars_of(a), x);
            lemma_count_add(vars_of(a), vars_of(b), x);
        }
    }
}

/// Compilation leaves no dangling port: the template of a definition that
/// compiles is closed. Every port of it that holds a port is one end of a
/// wire, and every variable has become exactly one wire.
#[verifier::rlimit(40)]
pub proof fn lemma_compiled_closed(d: DefState)
    requires
        compiled(d) is Ok,
        def_size(d) <= u64::MAX,
    ensures
        compiled(d).unwrap().closed(),
        compiled(d).unwrap().nodes.len() == def_size(d),
{
    reveal(good);
    let none = Set::<Ptr>::empty();
    let only = none.insert(Ptr::Root);
    let e = Draft::empty();
    assert(good(e, only)) by {
        assert forall|p: Ptr| #[trigger] e.is_port(p) && !only.contains(p) && e.get(p).is_var() implies (
        if e.get(p) == p {
            e.has_port(p)
        } else {
            !only.contains(e.get(p)) && e.get(e.get(p)) == p
        }) by {}
    }
    lemma_build_good(e, only, d.root, Ptr::Root);
    let r = e.build(d.root, Ptr::Root);
    let d1 = r.0.set(Ptr::Root, r.1);
    assert(only.remove(Ptr::Root) =~= none);
    lemma_pairs_good(d1, d.pairs);
    let fin = d1.pairs(d.pairs);
    assert(fin == Draft::of(d));
    lemma_check(def_vars(d));
    assert(fin.scope.len() == 0) by {
        if fin.scope.len() > 0 {
            let x = fin.scope[0].0;
            assert(fin.has_name(x));
            lemma_count_add(vars_of(d.root), pairs_vars(d.pairs), x);
            assert(!e.has_name(x));
            assert(count(def_vars(d), x) == 0 || count(def_vars(d), x) == 2);
        }
    }
    let t = fin.template();
    assert(t.wf());
    assert forall|p: Ptr| #[trigger] t.is_port(p) && t.get(p).is_var() implies (if t.get(p) is Root {
        t.root == p
    } else {
        t.get(p) != p && t.get(t.get(p)) == p
    }) by {
        assert(fin.is_port(p));
        assert(fin.get(p) == t.get(p));
        assert(!fin.has_port(p));
        assert(fin.get(fin.get(p)) == t.get(t.get(p)));
    }
    if t.root.is_var() {
        assert(fin.is_port(Ptr::Root));
        assert(fin.get(Ptr::Root) == t.root);
        assert(!fin.has_port(Ptr::Root));
    }
}

} // verus!
