//! Compilation points to each agent from one place only: together with
//! the absence of dangling ports this makes every compiled template sound.

use vstd::prelude::*;

use crate::closed::{
    good, lemma_act_good, lemma_build_good, lemma_grow_good, lemma_literal_good, lemma_pairs_good, lemma_pending_port, lemma_scope_port, lemma_set_pending, settled,
};
use crate::compile::{
    bits, compiled, def_size, find, lemma_find, pairs_size, size, DIGIT_ONE, DIGIT_ZERO,
};
use crate::sound::{owns_in, template_sound};
use crate::syntax::{DefState, Term};
use crate::compile::Draft;
use crate::ptr::Ptr;
use crate::sound::Holder;

verus! {

/// What the holder `h` of a draft holds.
pub open spec fn held_by(d: Draft, h: Holder) -> Option<Ptr> {
    match h {
        Holder::Port(p) => if d.is_port(p) {
            Some(d.get(p))
        } else {
            None
        },
        Holder::Fst(k) => if 0 <= k < d.acts.len() {
            Some(d.acts[k].0)
        } else {
            None
        },
        Holder::Snd(k) => if 0 <= k < d.acts.len() {
            Some(d.acts[k].1)
        } else {
            None
        },
    }
}

/// Whether `h` is a pending port.
pub open spec fn is_pending(pend: Set<Ptr>, h: Holder) -> bool {
    match h {
        Holder::Port(p) => pend.contains(p),
        _ => false,
    }
}

/// Whether `h`, a holder that is not pending, holds the principal port of
/// the agent `i` of the draft.
pub open spec fn keeps(d: Draft, pend: Set<Ptr>, h: Holder, i: u64) -> bool {
    held_by(d, h) matches Some(q) && q.is_ctr() && q.val() == i && !is_pending(pend, h)
}

/// Whether, pending ports aside, every agent that is pointed to is an
/// agent of the draft, is not one of those in `loose` (the agents whose
/// principal port waits to be stored), and is pointed to from one place
/// only.
pub open spec fn kept(d: Draft, pend: Set<Ptr>, loose: Set<u64>) -> bool {
    &&& forall|i: u64| #[trigger] loose.contains(i) ==> i < d.nodes.len()
    &&& forall|h: Holder, i: u64| #[trigger] keeps(d, pend, h, i) ==> i < d.nodes.len() && !loose.contains(i)
    &&& forall|h1: Holder, h2: Holder, i: u64|
        #[trigger] keeps(d, pend, h1, i) && #[trigger] keeps(d, pend, h2, i) ==> h1 == h2
}

/// A draft whose holders were holders before, with the same content, is
/// kept as the draft before was.
pub proof fn lemma_kept_from(d: Draft, pd: Set<Ptr>, ld: Set<u64>, e: Draft, pe: Set<Ptr>, le: Set<u64>)
    requires
        kept(d, pd, ld),
        e.nodes.len() >= d.nodes.len(),
        forall|h: Holder, i: u64| #[trigger] keeps(e, pe, h, i) ==> keeps(d, pd, h, i),
        forall|i: u64|
            #[trigger] le.contains(i) ==> i < e.nodes.len() && (ld.contains(i) || i >= d.nodes.len()),
    ensures
        kept(e, pe, le),
{
    assert forall|h: Holder, i: u64| #[trigger] keeps(e, pe, h, i) implies i < e.nodes.len()
        && !le.contains(i) by {
        assert(keeps(d, pd, h, i));
    }
    assert forall|h1: Holder, h2: Holder, i: u64|
        #[trigger] keeps(e, pe, h1, i) && #[trigger] keeps(e, pe, h2, i) implies h1 == h2 by {
        assert(keeps(d, pd, h1, i));
        assert(keeps(d, pd, h2, i));
    }
}

/// Storing something at a pending port changes no ownership.
pub proof fn lemma_set_kept(d: Draft, pend: Set<Ptr>, loose: Set<u64>, u: Ptr, v: Ptr)
    requires
        kept(d, pend, loose),
        pend.contains(u),
        d.is_port(u),
    ensures
        kept(d.set(u, v), pend, loose),
{
    let e = d.set(u, v);
    assert forall|h: Holder, i: u64| #[trigger] keeps(e, pend, h, i) implies keeps(d, pend, h, i) by {
        match h {
            Holder::Port(p) => {
                assert(d.is_port(p));
                assert(e.get(p) == d.get(p));
            },
            _ => {},
        }
    }
    lemma_kept_from(d, pend, loose, e, pend, loose);
}

/// A pending port that holds no two-port agent is settled without a
/// change of ownership; so is any change of the pending set among ports
/// that hold none.
pub proof fn lemma_idle_kept(d: Draft, pend: Set<Ptr>, loose: Set<u64>, next: Set<Ptr>)
    requires
        kept(d, pend, loose),
        forall|p: Ptr| d.is_port(p) && pend.contains(p) != next.contains(p) ==> !(#[trigger] d.get(p)).is_ctr(),
    ensures
        kept(d, next, loose),
{
    assert forall|h: Holder, i: u64| #[trigger] keeps(d, next, h, i) implies keeps(d, pend, h, i) by {
        match h {
            Holder::Port(p) => {
                if pend.contains(p) {
                    assert(!d.get(p).is_ctr());
                }
            },
            _ => {},
        }
    }
    lemma_kept_from(d, pend, loose, d, next, loose);
}

/// A pending port that holds the principal port of a loose agent is
/// settled: the agent is then pointed to from that port.
pub proof fn lemma_settle_kept(d: Draft, pend: Set<Ptr>, loose: Set<u64>, u: Ptr)
    requires
        kept(d, pend, loose),
        pend.contains(u),
        d.is_port(u),
        d.get(u).is_ctr(),
        d.get(u).val() < d.nodes.len(),
        loose.contains(d.get(u).val()),
    ensures
        kept(d, pend.remove(u), loose.remove(d.get(u).val())),
{
    let p2 = pend.remove(u);
    let l2 = loose.remove(d.get(u).val());
    assert forall|h: Holder, i: u64| #[trigger] keeps(d, p2, h, i) && h != Holder::Port(u) implies keeps(
        d,
        pend,
        h,
        i,
    ) by {}
    assert forall|h: Holder, i: u64| #[trigger] keeps(d, p2, h, i) implies i < d.nodes.len()
        && !l2.contains(i) by {
        if h != Holder::Port(u) {
            assert(keeps(d, pend, h, i));
        }
    }
    assert forall|h1: Holder, h2: Holder, i: u64|
        #[trigger] keeps(d, p2, h1, i) && #[trigger] keeps(d, p2, h2, i) implies h1 == h2 by {
        if h1 != Holder::Port(u) {
            assert(keeps(d, pend, h1, i));
        }
        if h2 != Holder::Port(u) {
            assert(keeps(d, pend, h2, i));
        }
    }
}

/// One more agent: its ports are pending and it is loose.
pub proof fn lemma_grow_kept(d: Draft, pend: Set<Ptr>, loose: Set<u64>, p1: Ptr, p2: Ptr)
    requires
        kept(d, pend, loose),
        d.nodes.len() < u64::MAX,
    ensures
        kept(
            d.grow(p1, p2),
            pend.insert(Ptr::Aux1(d.nodes.len() as u64)).insert(Ptr::Aux2(d.nodes.len() as u64)),
            loose.insert(d.nodes.len() as u64),
        ),
{
    let i = d.nodes.len() as u64;
    let e = d.grow(p1, p2);
    let pe = pend.insert(Ptr::Aux1(i)).insert(Ptr::Aux2(i));
    assert forall|h: Holder, x: u64| #[trigger] keeps(e, pe, h, x) implies keeps(d, pend, h, x) by {
        match h {
            Holder::Port(p) => {
                assert(d.is_port(p));
                assert(e.get(p) == d.get(p));
            },
            _ => {},
        }
    }
    lemma_kept_from(d, pend, loose, e, pe, loose.insert(i));
}

/// The agents that are no longer loose once `a` and `b` are stored.
pub open spec fn stored(loose: Set<u64>, a: Ptr, b: Ptr) -> Set<u64> {
    let l1 = if a.is_ctr() {
        loose.remove(a.val())
    } else {
        loose
    };
    if b.is_ctr() {
        l1.remove(b.val())
    } else {
        l1
    }
}

/// A pair of loose agents becomes pending: they are then pointed to from
/// the pair.
pub proof fn lemma_act_kept(d: Draft, pend: Set<Ptr>, loose: Set<u64>, a: Ptr, b: Ptr)
    requires
        kept(d, pend, loose),
        a.is_ctr() ==> a.val() < d.nodes.len() && loose.contains(a.val()),
        b.is_ctr() ==> b.val() < d.nodes.len() && loose.contains(b.val()),
        a.is_ctr() && b.is_ctr() ==> a.val() != b.val(),
    ensures
        kept(Draft { acts: d.acts.push((a, b)), ..d }, pend, stored(loose, a, b)),
{
    let e = Draft { acts: d.acts.push((a, b)), ..d };
    let n = d.acts.len() as int;
    let l2 = stored(loose, a, b);
    assert(e.acts[n] == (a, b));
    assert forall|h: Holder, i: u64|
        #[trigger] keeps(e, pend, h, i) && h != Holder::Fst(n) && h != Holder::Snd(n) implies keeps(
        d,
        pend,
        h,
        i,
    ) by {
        match h {
            Holder::Port(p) => {},
            Holder::Fst(k) => {
                assert(e.acts[k] == d.acts[k]);
            },
            Holder::Snd(k) => {
                assert(e.acts[k] == d.acts[k]);
            },
        }
    }
    assert forall|h: Holder, i: u64| #[trigger] keeps(e, pend, h, i) implies i < e.nodes.len()
        && !l2.contains(i) by {
        if h != Holder::Fst(n) && h != Holder::Snd(n) {
            assert(keeps(d, pend, h, i));
        }
    }
    assert forall|h1: Holder, h2: Holder, i: u64|
        #[trigger] keeps(e, pend, h1, i) && #[trigger] keeps(e, pend, h2, i) implies h1 == h2 by {
        if h1 != Holder::Fst(n) && h1 != Holder::Snd(n) {
            assert(keeps(d, pend, h1, i));
        }
        if h2 != Holder::Fst(n) && h2 != Holder::Snd(n) {
            assert(keeps(d, pend, h2, i));
        }
    }
}

/// The scope has no part in ownership.
pub proof fn lemma_scope_kept(d: Draft, pend: Set<Ptr>, loose: Set<u64>, scope: Seq<(u64, Ptr)>)
    requires
        kept(d, pend, loose),
    ensures
        kept(Draft { scope, ..d }, pend, loose),
{
    let e = Draft { scope, ..d };
    assert forall|h: Holder, i: u64| #[trigger] keeps(e, pend, h, i) implies keeps(d, pend, h, i) by {}
    lemma_kept_from(d, pend, loose, e, pend, loose);
}

/// An occurrence of a variable changes no ownership.
#[verifier::rlimit(40)]
pub proof fn lemma_var_kept(d: Draft, pend: Set<Ptr>, loose: Set<u64>, x: u64, at: Ptr)
    requires
        good(d, pend),
        kept(d, pend, loose),
        pend.contains(at),
    ensures
        kept(d.var(x, at).0.set(at, d.var(x, at).1), pend.remove(at), loose),
        d.var(x, at).1.is_var(),
{
    lemma_find(d.scope, x, 0);
    lemma_pending_port(d, pend, at);
    let fin = d.var(x, at).0.set(at, d.var(x, at).1);
    match find(d.scope, x, 0) {
        Some(k) => {
            let k = k as int;
            let q0 = d.scope[k].1;
            lemma_scope_port(d, pend, k);
            let da = Draft { scope: d.scope.remove(k), ..d };
            lemma_scope_kept(d, pend, loose, d.scope.remove(k));
            let p1 = pend.insert(q0);
            lemma_idle_kept(da, pend, loose, p1);
            let db = da.set(q0, at);
            lemma_set_kept(da, p1, loose, q0, at);
            let dc = db.set(at, q0);
            lemma_set_kept(db, p1, loose, at, q0);
            assert(dc.get(at) == q0);
            assert(dc.get(q0) == at);
            lemma_idle_kept(dc, p1, loose, pend.remove(at));
            assert(fin == dc);
        },
        None => {
            let da = d.set(at, at);
            lemma_set_kept(d, pend, loose, at, at);
            assert(da.get(at) == at);
            lemma_scope_kept(da, pend, loose, da.scope.push((x, at)));
            let dz = Draft { scope: da.scope.push((x, at)), ..da };
            lemma_idle_kept(dz, pend, loose, pend.remove(at));
            assert(fin == dz);
        },
    }
}

/// A literal changes no ownership: each of its agents is pointed to from
/// the pair that applies its digit.
#[verifier::rlimit(40)]
pub proof fn lemma_literal_kept(d: Draft, pend: Set<Ptr>, loose: Set<u64>, n: u64, at: Ptr)
    requires
        good(d, pend),
        kept(d, pend, loose),
        at.is_var() ==> pend.contains(at),
        !at.is_var() ==> at == Ptr::Era,
        d.nodes.len() + bits(n) <= u64::MAX,
    ensures
        ({
            let r = d.literal(n, at);
            let fin = r.0.set(at, r.1);
            &&& kept(fin, settled(pend, at, r.1), loose)
            &&& !r.1.is_ctr()
        }),
    decreases n,
{
    let r = d.literal(n, at);
    let fin = r.0.set(at, r.1);
    lemma_pending_port(d, pend, at);
    if n == 0 {
        if at.is_var() {
            lemma_set_kept(d, pend, loose, at, r.1);
            assert(fin.get(at) == r.1);
            lemma_idle_kept(fin, pend, loose, pend.remove(at));
        }
    } else {
        let i = d.nodes.len() as u64;
        let a1 = Ptr::Aux1(i);
        let a2 = Ptr::Aux2(i);
        let digit = if n % 2 == 0 {
            DIGIT_ZERO
        } else {
            DIGIT_ONE
        };
        let g = d.grow(Ptr::Era, at);
        lemma_grow_good(d, pend, Ptr::Era, at);
        lemma_grow_kept(d, pend, loose, Ptr::Era, at);
        let p0 = pend.insert(a1).insert(a2);
        let d0 = Draft { acts: g.acts.push((Ptr::Ref(digit), Ptr::Con(i))), ..g };
        lemma_act_good(g, p0, Ptr::Ref(digit), Ptr::Con(i));
        lemma_act_kept(g, p0, loose.insert(i), Ptr::Ref(digit), Ptr::Con(i));
        assert(stored(loose.insert(i), Ptr::Ref(digit), Ptr::Con(i)) =~= loose);
        assert(d0 == (Draft { acts: d.acts.push((Ptr::Ref(digit), Ptr::Con(i))), ..g }));
        lemma_literal_good(d0, p0, n / 2, a1);
        lemma_literal_kept(d0, p0, loose, n / 2, a1);
        let r1 = d0.literal(n / 2, a1);
        let d2 = r1.0.set(a1, r1.1);
        assert(r == (d2, a2));
        let p2 = p0.remove(a1);
        assert(d2.get(a2) == d0.get(a2));
        assert(d0.get(a2) == at);
        lemma_pending_port(d2, p2, a2);
        if at.is_var() {
            lemma_pending_port(d2, p2, at);
            lemma_set_kept(d2, p2, loose, at, a2);
            lemma_set_pending(d2, p2, at, a2);
            assert(fin.get(at) == a2);
            assert(fin.get(a2) == at);
            lemma_idle_kept(fin, p2, loose, pend.remove(at));
        } else {
            assert(p2 =~= pend.insert(a2));
        }
    }
}

/// The loose agents after a term was put at `at` and gave `p`: an agent
/// that stands alone is loose until it is joined.
pub open spec fn left_over(loose: Set<u64>, at: Ptr, p: Ptr) -> Set<u64> {
    if !at.is_var() && p.is_ctr() {
        loose.insert(p.val())
    } else {
        loose
    }
}

/// A term changes no ownership but its own: each of its agents is pointed
/// to from one place, and so is the agent it gives once that is stored.
#[verifier::rlimit(40)]
pub proof fn lemma_build_kept(d: Draft, pend: Set<Ptr>, loose: Set<u64>, t: Term, at: Ptr)
    requires
        good(d, pend),
        kept(d, pend, loose),
        at.is_var() ==> pend.contains(at),
        !at.is_var() ==> at == Ptr::Era,
        t is Var ==> at.is_var(),
        d.nodes.len() + size(t) <= u64::MAX,
    ensures
        ({
            let r = d.build(t, at);
            let fin = r.0.set(at, r.1);
            &&& kept(fin, settled(pend, at, r.1), left_over(loose, at, r.1))
            &&& r.1.is_ctr() ==> d.nodes.len() <= r.1.val() < fin.nodes.len()
        }),
    decreases t,
{
    let res = d.build(t, at);
    let head = res.1;
    let fin = res.0.set(at, head);
    lemma_pending_port(d, pend, at);
    lemma_build_good(d, pend, t, at);
    match t {
        Term::Var(x) => {
            lemma_var_kept(d, pend, loose, x, at);
        },
        Term::Lit(n) => {
            lemma_literal_kept(d, pend, loose, n, at);
        },
        Term::Ctr(_, l, r) | Term::Opr(_, l, r) => {
            let i = d.nodes.len() as u64;
            let a1 = Ptr::Aux1(i);
            let a2 = Ptr::Aux2(i);
            let g = d.grow(Ptr::Era, Ptr::Era);
            lemma_grow_good(d, pend, Ptr::Era, Ptr::Era);
            lemma_grow_kept(d, pend, loose, Ptr::Era, Ptr::Era);
            let p0 = pend.insert(a1).insert(a2);
            let l0 = loose.insert(i);
            lemma_build_good(g, p0, *l, a1);
            lemma_build_kept(g, p0, l0, *l, a1);
            let r1 = g.build(*l, a1);
            let d2 = r1.0.set(a1, r1.1);
            let p2 = p0.remove(a1);
            assert(p2.contains(a2));
            lemma_build_good(d2, p2, *r, a2);
            lemma_build_kept(d2, p2, l0, *r, a2);
            let r3 = d2.build(*r, a2);
            let d4 = r3.0.set(a2, r3.1);
            let p4 = p2.remove(a2);
            assert(p4 =~= pend);
            assert(res.0 == d4);
            assert(head.is_ctr() && head.val() == i);
            if at.is_var() {
                lemma_pending_port(d4, pend, at);
                lemma_set_kept(d4, pend, l0, at, head);
                lemma_set_pending(d4, pend, at, head);
                assert(fin.get(at) == head);
                lemma_settle_kept(fin, pend, l0, at);
                assert(l0.remove(i) =~= loose);
            }
        },
        _ => {
            if at.is_var() {
                lemma_set_kept(d, pend, loose, at, head);
                assert(fin.get(at) == head);
                lemma_idle_kept(fin, pend, loose, pend.remove(at));
            }
        },
    }
}

/// A pair of terms changes no ownership but its own.
#[verifier::rlimit(40)]
pub proof fn lemma_pair_kept(d: Draft, a: Term, b: Term)
    requires
        good(d, Set::empty()),
        kept(d, Set::empty(), Set::empty()),
        !(a is Var),
        !(b is Var),
        d.nodes.len() + size(a) + size(b) <= u64::MAX,
    ensures
        kept(d.pair(a, b), Set::empty(), Set::empty()),
{
    let none = Set::<Ptr>::empty();
    let idle = Set::<u64>::empty();
    let r1 = d.build(a, Ptr::Era);
    let d1 = r1.0;
    let pa = r1.1;
    lemma_build_good(d, none, a, Ptr::Era);
    lemma_build_kept(d, none, idle, a, Ptr::Era);
    assert(d1.set(Ptr::Era, pa) == d1);
    let p1 = settled(none, Ptr::Era, pa);
    let l1 = left_over(idle, Ptr::Era, pa);
    let r2 = d1.build(b, Ptr::Era);
    let d2 = r2.0;
    let pb = r2.1;
    lemma_build_good(d1, p1, b, Ptr::Era);
    lemma_build_kept(d1, p1, l1, b, Ptr::Era);
    assert(d2.set(Ptr::Era, pb) == d2);
    let p2 = settled(p1, Ptr::Era, pb);
    let l2 = left_over(l1, Ptr::Era, pb);
    let fin = d2.join(pa, pb);
    lemma_pending_port(d2, p2, pa);
    lemma_pending_port(d2, p2, pb);
    if pa.is_var() {
        assert(p1.contains(pa));
        if pb.is_var() {
            let j1 = d2.set(pa, pb);
            lemma_set_kept(d2, p2, l2, pa, pb);
            lemma_set_pending(d2, p2, pa, pb);
            lemma_set_kept(j1, p2, l2, pb, pa);
            lemma_set_pending(j1, p2, pb, pa);
            assert(fin.get(pb) == pa);
            assert(fin.get(pa) == pb);
            lemma_idle_kept(fin, p2, l2, none);
            assert(l2 =~= idle);
        } else {
            lemma_set_kept(d2, p2, l2, pa, pb);
            lemma_set_pending(d2, p2, pa, pb);
            assert(fin.get(pa) == pb);
            if pb.is_ctr() {
                lemma_settle_kept(fin, p2, l2, pa);
                assert(p2.remove(pa) =~= none);
                assert(l2.remove(pb.val()) =~= idle);
            } else {
                lemma_idle_kept(fin, p2, l2, none);
                assert(l2 =~= idle);
            }
        }
    } else if pb.is_var() {
        lemma_set_kept(d2, p2, l2, pb, pa);
        lemma_set_pending(d2, p2, pb, pa);
        assert(fin.get(pb) == pa);
        if pa.is_ctr() {
            lemma_settle_kept(fin, p2, l2, pb);
            assert(p2.remove(pb) =~= none);
            assert(l2.remove(pa.val()) =~= idle);
        } else {
            lemma_idle_kept(fin, p2, l2, none);
            assert(l2 =~= idle);
        }
    } else {
        assert(p2 =~= none);
        lemma_act_kept(d2, none, l2, pa, pb);
        assert(stored(l2, pa, pb) =~= idle);
    }
}

/// A list of pairs changes no ownership but its own.
pub proof fn lemma_pairs_kept(d: Draft, pairs: Seq<(Term, Term)>)
    requires
        good(d, Set::empty()),
        kept(d, Set::empty(), Set::empty()),
        forall|k: int| 0 <= k < pairs.len() ==> !((#[trigger] pairs[k]).0 is Var) && !(pairs[k].1 is Var),
        d.nodes.len() + pairs_size(pairs) <= u64::MAX,
    ensures
        kept(d.pairs(pairs), Set::empty(), Set::empty()),
    decreases pairs.len(),
{
    if pairs.len() > 0 {
        let front = pairs.drop_last();
        let (a, b) = pairs.last();
        assert forall|k: int| 0 <= k < front.len() implies !((#[trigger] front[k]).0 is Var) && !(
        front[k].1 is Var) by {
            assert(front[k] == pairs[k]);
        }
        assert(pairs[pairs.len() - 1] == (a, b));
        lemma_pairs_good(d, front);
        lemma_pairs_kept(d, front);
        lemma_pair_kept(d.pairs(front), a, b);
    }
}

/// Compilation gives sound templates: the template of a definition that
/// compiles has no dangling port and points to each of its agents from one
/// place only.
#[verifier::rlimit(40)]
pub proof fn lemma_compiled_sound(d: DefState)
    requires
        compiled(d) is Ok,
        def_size(d) <= u64::MAX,
    ensures
        template_sound(compiled(d).unwrap()),
{
    let none = Set::<Ptr>::empty();
    let idle = Set::<u64>::empty();
    let only = none.insert(Ptr::Root);
    let e = Draft::empty();
    crate::closed::lemma_compiled_closed(d);
    assert(good(e, only)) by {
        reveal(good);
    }
    assert(kept(e, only, idle));
    lemma_build_good(e, only, d.root, Ptr::Root);
    lemma_build_kept(e, only, idle, d.root, Ptr::Root);
    let r = e.build(d.root, Ptr::Root);
    let d1 = r.0.set(Ptr::Root, r.1);
    assert(only.remove(Ptr::Root) =~= none);
    lemma_pairs_good(d1, d.pairs);
    lemma_pairs_kept(d1, d.pairs);
    let fin = d1.pairs(d.pairs);
    assert(fin == Draft::of(d));
    let t = fin.template();
    assert forall|h1: Holder, h2: Holder, i: u64|
        #[trigger] owns_in(t, h1, i) && #[trigger] owns_in(t, h2, i) implies h1 == h2 by {
        assert(keeps(fin, none, h1, i));
        assert(keeps(fin, none, h2, i));
    }
}

} // verus!
