//! The compiler: from a parsed definition to a template.

use vstd::prelude::*;
use vstd::string::StringSliceAdditionalSpecFns;
use crate::book::{inside, Book, Template, TemplateState};
use crate::error::Error;
use crate::net::Node;
use crate::ptr::Ptr;
use crate::sound::template_sound;
use crate::syntax::{
    is_variable, name_to_val, name_value, parse, parse_def, Def, DefState, Term,
};

verus! {

/// The name of the definition that a literal's digit zero refers to: `O`.
pub const DIGIT_ZERO: u64 = 25;

/// The name of the definition that a literal's digit one refers to: `I`.
pub const DIGIT_ONE: u64 = 19;

/// The name of the definition that ends a literal: `E`.
pub const DIGIT_END: u64 = 15;

/// The variables of a term, in the order in which they occur.
pub open spec fn vars_of(t: Term) -> Seq<u64>
    decreases t,
{
    match t {
        Term::Var(x) => seq![x],
        Term::Ctr(_, l, r) => vars_of(*l) + vars_of(*r),
        Term::Opr(_, l, r) => vars_of(*l) + vars_of(*r),
        _ => Seq::empty(),
    }
}

/// The variables of a list of pairs, in the order in which they occur.
pub open spec fn pairs_vars(pairs: Seq<(Term, Term)>) -> Seq<u64>
    decreases pairs.len(),
{
    if pairs.len() == 0 {
        Seq::empty()
    } else {
        pairs_vars(pairs.drop_last()) + vars_of(pairs.last().0) + vars_of(pairs.last().1)
    }
}

/// The variables of a definition, in the order in which they occur.
pub open spec fn def_vars(d: DefState) -> Seq<u64> {
    vars_of(d.root) + pairs_vars(d.pairs)
}

/// The number of binary digits of `n`.
pub open spec fn bits(n: u64) -> nat
    decreases n,
{
    if n == 0 {
        0
    } else {
        1 + bits(n / 2)
    }
}

/// The number of agents that the term `t` adds to a draft.
pub open spec fn size(t: Term) -> nat
    decreases t,
{
    match t {
        Term::Ctr(_, l, r) => 1 + size(*l) + size(*r),
        Term::Opr(_, l, r) => 1 + size(*l) + size(*r),
        Term::Lit(n) => bits(n),
        _ => 0,
    }
}

/// The number of agents that a list of pairs adds to a draft.
pub open spec fn pairs_size(pairs: Seq<(Term, Term)>) -> nat
    decreases pairs.len(),
{
    if pairs.len() == 0 {
        0
    } else {
        pairs_size(pairs.drop_last()) + size(pairs.last().0) + size(pairs.last().1)
    }
}

/// The number of agents of the template of a definition.
pub open spec fn def_size(d: DefState) -> nat {
    size(d.root) + pairs_size(d.pairs)
}

/// How often `x` occurs in `vs`.
pub open spec fn count(vs: Seq<u64>, x: u64) -> nat
    decreases vs.len(),
{
    if vs.len() == 0 {
        0
    } else {
        count(vs.drop_last(), x) + if vs.last() == x {
            1nat
        } else {
            0nat
        }
    }
}

/// Whether every variable occurs exactly twice.
pub open spec fn linear(vs: Seq<u64>) -> bool {
    forall|x: u64| count(vs, x) == 0 || count(vs, x) == 2
}

/// Whether the occurrence at `i` is at least the third of its variable.
pub open spec fn third_at(vs: Seq<u64>, i: int) -> bool {
    count(vs.take(i), vs[i]) >= 2
}

/// The first occurrence from `from` on that is a third one.
pub open spec fn first_third(vs: Seq<u64>, from: nat) -> Option<nat>
    decreases vs.len() - from,
{
    if from >= vs.len() {
        None
    } else if third_at(vs, from as int) {
        Some(from)
    } else {
        first_third(vs, from + 1)
    }
}

/// The first occurrence from `from` on of a variable that occurs only once.
pub open spec fn first_single(vs: Seq<u64>, from: nat) -> Option<nat>
    decreases vs.len() - from,
{
    if from >= vs.len() {
        None
    } else if count(vs, vs[from as int]) == 1 {
        Some(from)
    } else {
        first_single(vs, from + 1)
    }
}

/// The verdict on the variables of a definition: the first variable that
/// occurs a third time is reported as reused; failing that, the first
/// variable that occurs only once is reported as free.
pub open spec fn check(vs: Seq<u64>) -> Result<(), Error> {
    match first_third(vs, 0) {
        Some(i) => Err(Error::VariableReused(vs[i as int])),
        None => match first_single(vs, 0) {
            Some(i) => Err(Error::FreeVariable(vs[i as int])),
            None => Ok(()),
        },
    }
}

/// A template under construction.
pub struct Draft {
    pub nodes: Seq<Node>,
    pub root: Ptr,
    pub acts: Seq<(Ptr, Ptr)>,
    /// The variables seen once so far, each with the port of its occurrence.
    pub scope: Seq<(u64, Ptr)>,
}

/// Whether `p` is the root port or a port of one of the first `n` agents.
pub open spec fn is_slot(p: Ptr, n: nat) -> bool {
    p.is_var() && inside(p, n)
}

/// The first entry of `scope` from `from` on that names `x`.
pub open spec fn find(scope: Seq<(u64, Ptr)>, x: u64, from: nat) -> Option<nat>
    decreases scope.len() - from,
{
    if from >= scope.len() {
        None
    } else if scope[from as int].0 == x {
        Some(from)
    } else {
        find(scope, x, from + 1)
    }
}

impl Draft {
    /// The draft to start from.
    pub open spec fn empty() -> Draft {
        Draft { nodes: Seq::empty(), root: Ptr::Era, acts: Seq::empty(), scope: Seq::empty() }
    }

    /// Every address in the draft names one of its agents, the pairs are
    /// made of agents, and the scope holds ports.
    pub open spec fn ok(self) -> bool {
        let n = self.nodes.len();
        &&& inside(self.root, n)
        &&& forall|i: int|
            0 <= i < n ==> inside((#[trigger] self.nodes[i]).p1, n) && inside(self.nodes[i].p2, n)
        &&& forall|k: int|
            0 <= k < self.acts.len() ==> {
                &&& inside((#[trigger] self.acts[k]).0, n)
                &&& inside(self.acts[k].1, n)
                &&& !self.acts[k].0.is_var()
                &&& !self.acts[k].1.is_var()
            }
        &&& forall|k: int| 0 <= k < self.scope.len() ==> is_slot((#[trigger] self.scope[k]).1, n)
    }

    /// The draft as a template.
    pub open spec fn template(self) -> TemplateState {
        TemplateState { nodes: self.nodes, root: self.root, acts: self.acts }
    }

    /// The draft with `v` stored at `port`.
    pub open spec fn set(self, port: Ptr, v: Ptr) -> Draft {
        match port {
            Ptr::Root => Draft { root: v, ..self },
            Ptr::Aux1(i) => Draft {
                nodes: self.nodes.update(i as int, Node { p1: v, ..self.nodes[i as int] }),
                ..self
            },
            Ptr::Aux2(i) => Draft {
                nodes: self.nodes.update(i as int, Node { p2: v, ..self.nodes[i as int] }),
                ..self
            },
            _ => self,
        }
    }

    /// The draft with one more agent, whose ports hold `p1` and `p2`.
    pub open spec fn grow(self, p1: Ptr, p2: Ptr) -> Draft {
        Draft { nodes: self.nodes.push(Node { p1, p2, live: true }), ..self }
    }

    /// The draft with `a` and `b` joined.
    pub open spec fn join(self, a: Ptr, b: Ptr) -> Draft {
        if a.is_var() {
            if b.is_var() {
                self.set(a, b).set(b, a)
            } else {
                self.set(a, b)
            }
        } else if b.is_var() {
            self.set(b, a)
        } else {
            Draft { acts: self.acts.push((a, b)), ..self }
        }
    }

    /// An occurrence of the variable `x` at the port `at`. The first
    /// occurrence is noted in the scope and the port is left to hold itself.
    /// The second one makes the wire: the port of the first occurrence now
    /// holds `at`, the entry leaves the scope, and that port is what `at` is
    /// to hold.
    pub open spec fn var(self, x: u64, at: Ptr) -> (Draft, Ptr) {
        match find(self.scope, x, 0) {
            Some(k) => {
                let q = self.scope[k as int].1;
                (Draft { scope: self.scope.remove(k as int), ..self.set(q, at) }, q)
            },
            None => (Draft { scope: self.scope.push((x, at)), ..self }, at),
        }
    }

    /// The literal `n` at the port `at`: the end definition for zero;
    /// otherwise the definition of the lowest binary digit, applied to the
    /// literal of the remaining digits.
    pub open spec fn literal(self, n: u64, at: Ptr) -> (Draft, Ptr)
        decreases n,
    {
        if n == 0 {
            (self, Ptr::Ref(DIGIT_END))
        } else {
            let i = self.nodes.len() as u64;
            let digit = if n % 2 == 0 {
                DIGIT_ZERO
            } else {
                DIGIT_ONE
            };
            let d0 = Draft { acts: self.acts.push((Ptr::Ref(digit), Ptr::Con(i))), ..self.grow(Ptr::Era, at) };
            let (d1, p1) = d0.literal(n / 2, Ptr::Aux1(i));
            (d1.set(Ptr::Aux1(i), p1), Ptr::Aux2(i))
        }
    }

    /// The term `t` at the port `at`: the draft with the agents of `t` in
    /// it, and what `at` is to hold.
    pub open spec fn build(self, t: Term, at: Ptr) -> (Draft, Ptr)
        decreases t,
    {
        match t {
            Term::Era => (self, Ptr::Era),
            Term::Ref(name) => (self, Ptr::Ref(name)),
            Term::Num(v) => (self, Ptr::Num(v)),
            Term::Var(x) => self.var(x, at),
            Term::Lit(n) => self.literal(n, at),
            Term::Ctr(lab, l, r) => {
                let i = self.nodes.len() as u64;
                let (d1, p1) = self.grow(Ptr::Era, Ptr::Era).build(*l, Ptr::Aux1(i));
                let (d2, p2) = d1.set(Ptr::Aux1(i), p1).build(*r, Ptr::Aux2(i));
                (d2.set(Ptr::Aux2(i), p2), if lab == 0 {
                    Ptr::Con(i)
                } else {
                    Ptr::Dup(lab, i)
                })
            },
            Term::Opr(op, l, r) => {
                let i = self.nodes.len() as u64;
                let (d1, p1) = self.grow(Ptr::Era, Ptr::Era).build(*l, Ptr::Aux1(i));
                let (d2, p2) = d1.set(Ptr::Aux1(i), p1).build(*r, Ptr::Aux2(i));
                (d2.set(Ptr::Aux2(i), p2), Ptr::Opr(op, i))
            },
        }
    }

    /// The draft with the pair `a`, `b` in it.
    pub open spec fn pair(self, a: Term, b: Term) -> Draft {
        let (d1, pa) = self.build(a, Ptr::Era);
        let (d2, pb) = d1.build(b, Ptr::Era);
        d2.join(pa, pb)
    }

    /// The draft with all of `pairs` in it, first one first.
    pub open spec fn pairs(self, pairs: Seq<(Term, Term)>) -> Draft
        decreases pairs.len(),
    {
        if pairs.len() == 0 {
            self
        } else {
            self.pairs(pairs.drop_last()).pair(pairs.last().0, pairs.last().1)
        }
    }

    /// The draft of a whole definition.
    pub open spec fn of(d: DefState) -> Draft {
        let (d1, r) = Draft::empty().build(d.root, Ptr::Root);
        d1.set(Ptr::Root, r).pairs(d.pairs)
    }
}

/// Whether no side of a pair is a bare variable.
pub open spec fn well_shaped(d: DefState) -> bool {
    forall|k: int| 0 <= k < d.pairs.len() ==> !((#[trigger] d.pairs[k]).0 is Var) && !(d.pairs[k].1 is Var)
}

/// What compiling the definition `d` gives: a syntax error if a side of a
/// pair is a bare variable, the verdict on its variables if that is an
/// error, and the template otherwise.
pub open spec fn compiled(d: DefState) -> Result<TemplateState, Error> {
    if !well_shaped(d) {
        Err(Error::Syntax(0))
    } else {
        match check(def_vars(d)) {
            Err(e) => Err(e),
            Ok(_) => Ok(Draft::of(d).template()),
        }
    }
}

/// Storing a pointer that lies inside at a port keeps the draft sound.
pub proof fn lemma_set_ok(d: Draft, port: Ptr, v: Ptr)
    requires
        d.ok(),
        is_slot(port, d.nodes.len()),
        inside(v, d.nodes.len()),
    ensures
        d.set(port, v).ok(),
        d.set(port, v).nodes.len() == d.nodes.len(),
        d.set(port, v).scope == d.scope,
        d.set(port, v).acts == d.acts,
{
}

/// One more agent keeps the draft sound.
pub proof fn lemma_grow_ok(d: Draft, p1: Ptr, p2: Ptr)
    requires
        d.ok(),
        inside(p1, d.nodes.len() + 1),
        inside(p2, d.nodes.len() + 1),
    ensures
        d.grow(p1, p2).ok(),
        d.grow(p1, p2).nodes.len() == d.nodes.len() + 1,
{
    let e = d.grow(p1, p2);
    assert forall|i: int| 0 <= i < e.nodes.len() implies inside((#[trigger] e.nodes[i]).p1, e.nodes.len())
        && inside(e.nodes[i].p2, e.nodes.len()) by {
        if i < d.nodes.len() {
            assert(e.nodes[i] == d.nodes[i]);
        }
    }
}

/// A found entry lies in the scope and names the variable; if none is
/// found, no entry names it.
pub proof fn lemma_find(scope: Seq<(u64, Ptr)>, x: u64, from: nat)
    ensures
        match find(scope, x, from) {
            Some(k) => from <= k < scope.len() && scope[k as int].0 == x,
            None => forall|j: int| from <= j < scope.len() ==> scope[j].0 != x,
        },
    decreases scope.len() - from,
{
    if from < scope.len() && scope[from as int].0 != x {
        lemma_find(scope, x, from + 1);
    }
}

/// An occurrence of a variable keeps the draft sound.
pub proof fn lemma_var_ok(d: Draft, x: u64, at: Ptr)
    requires
        d.ok(),
        is_slot(at, d.nodes.len()),
    ensures
        d.var(x, at).0.ok(),
        d.var(x, at).0.nodes.len() == d.nodes.len(),
        inside(d.var(x, at).1, d.nodes.len()),
{
    lemma_find(d.scope, x, 0);
    match find(d.scope, x, 0) {
        Some(k) => {
            let q = d.scope[k as int].1;
            lemma_set_ok(d, q, at);
            let e = d.var(x, at).0;
            assert forall|j: int| 0 <= j < e.scope.len() implies is_slot(
                (#[trigger] e.scope[j]).1,
                e.nodes.len(),
            ) by {
                if j < k {
                    assert(e.scope[j] == d.scope[j]);
                } else {
                    assert(e.scope[j] == d.scope[j + 1]);
                }
            }
        },
        None => {
            let e = d.var(x, at).0;
            assert forall|j: int| 0 <= j < e.scope.len() implies is_slot(
                (#[trigger] e.scope[j]).1,
                e.nodes.len(),
            ) by {
                if j < d.scope.len() {
                    assert(e.scope[j] == d.scope[j]);
                }
            }
        },
    }
}

/// The occurrences of `x` among the first `k + 1` variables: those among
/// the first `k`, and one more if the variable at `k` is `x`.
pub proof fn lemma_count_take(vs: Seq<u64>, k: int, x: u64)
    requires
        0 <= k < vs.len(),
    ensures
        count(vs.take(k + 1), x) == count(vs.take(k), x) + if vs[k] == x {
            1nat
        } else {
            0nat
        },
{
    assert(vs.take(k + 1).drop_last() =~= vs.take(k));
}

/// The occurrences of `x` in two lists put together.
pub proof fn lemma_count_add(a: Seq<u64>, b: Seq<u64>, x: u64)
    ensures
        count(a + b, x) == count(a, x) + count(b, x),
    decreases b.len(),
{
    if b.len() == 0 {
        assert(a + b =~= a);
    } else {
        lemma_count_add(a, b.drop_last(), x);
        assert((a + b).drop_last() =~= a + b.drop_last());
    }
}

/// A template under construction, as the compiler holds it.
pub struct Builder {
    pub nodes: Vec<Node>,
    pub root: Ptr,
    pub acts: Vec<(Ptr, Ptr)>,
    pub scope: Vec<(u64, Ptr)>,
}

impl View for Builder {
    type V = Draft;

    open spec fn view(&self) -> Draft {
        Draft { nodes: self.nodes@, root: self.root, acts: self.acts@, scope: self.scope@ }
    }
}

impl Builder {
    fn new() -> (b: Builder)
        ensures
            b@ == Draft::empty(),
            b@.ok(),
    {
        Builder { nodes: Vec::new(), root: Ptr::Era, acts: Vec::new(), scope: Vec::new() }
    }

    fn set(&mut self, port: Ptr, v: Ptr)
        requires
            old(self)@.ok(),
            is_slot(port, old(self)@.nodes.len()),
            inside(v, old(self)@.nodes.len()),
        ensures
            final(self)@ == old(self)@.set(port, v),
            final(self)@.ok(),
            final(self)@.nodes.len() == old(self)@.nodes.len(),
    {
        assert(self.nodes@.len() == self.nodes.len());
        match port {
            Ptr::Root => {
                self.root = v;
            },
            Ptr::Aux1(i) => {
                self.nodes[i as usize].p1 = v;
            },
            Ptr::Aux2(i) => {
                self.nodes[i as usize].p2 = v;
            },
            _ => {},
        }
        proof {
            lemma_set_ok(old(self)@, port, v);
        }
    }

    fn grow(&mut self, p1: Ptr, p2: Ptr) -> (i: u64)
        requires
            old(self)@.ok(),
            inside(p1, old(self)@.nodes.len() + 1),
            inside(p2, old(self)@.nodes.len() + 1),
        ensures
            final(self)@ == old(self)@.grow(p1, p2),
            final(self)@.ok(),
            i == old(self)@.nodes.len(),
            final(self)@.nodes.len() == i + 1,
            i < u64::MAX,
    {
        let i = self.nodes.len() as u64;
        self.nodes.push(Node { p1, p2, live: true });
        assert(self.nodes@.len() == self.nodes.len());
        proof {
            lemma_grow_ok(old(self)@, p1, p2);
        }
        i
    }

    fn lookup(&self, x: u64) -> (r: Option<usize>)
        ensures
            match find(self@.scope, x, 0) {
                Some(k) => r == Some(k as usize),
                None => r is None,
            },
    {
        let mut k: usize = 0;
        while k < self.scope.len()
            invariant
                k <= self.scope@.len(),
                find(self@.scope, x, k as nat) == find(self@.scope, x, 0),
            decreases self.scope@.len() - k,
        {
            if self.scope[k].0 == x {
                return Some(k);
            }
            k += 1;
        }
        None
    }

    #[verifier::rlimit(40)]

    fn var(&mut self, x: u64, at: Ptr) -> (p: Ptr)
        requires
            old(self)@.ok(),
            is_slot(at, old(self)@.nodes.len()),
        ensures
            (final(self)@, p) == old(self)@.var(x, at),
            final(self)@.ok(),
            final(self)@.nodes.len() == old(self)@.nodes.len(),
            inside(p, final(self)@.nodes.len()),
    {
        proof {
            lemma_find(self@.scope, x, 0);
            lemma_var_ok(self@, x, at);
            assert(self.scope@.len() == self.scope.len());
        }
        match self.lookup(x) {
            Some(k) => {
                let q = self.scope[k].1;
                self.set(q, at);
                self.scope.remove(k);
                proof {
                    let want = old(self)@.var(x, at).0;
                    assert(self@.scope =~= want.scope);
                    assert(self@.nodes =~= want.nodes);
                    assert(self@.acts =~= want.acts);
                }
                q
            },
            None => {
                self.scope.push((x, at));
                proof {
                    let want = old(self)@.var(x, at).0;
                    assert(self@.scope =~= want.scope);
                    assert(self@.nodes =~= want.nodes);
                    assert(self@.acts =~= want.acts);
                }
                at
            },
        }
    }

    #[verifier::rlimit(40)]

    fn literal(&mut self, n: u64, at: Ptr) -> (p: Ptr)
        requires
            old(self)@.ok(),
            inside(at, old(self)@.nodes.len()),
        ensures
            (final(self)@, p) == old(self)@.literal(n, at),
            final(self)@.ok(),
            final(self)@.nodes.len() == old(self)@.nodes.len() + bits(n),
            inside(p, final(self)@.nodes.len()),
        decreases n,
    {
        if n == 0 {
            return Ptr::Ref(DIGIT_END);
        }
        let digit = if n % 2 == 0 {
            DIGIT_ZERO
        } else {
            DIGIT_ONE
        };
        let i = self.grow(Ptr::Era, at);
        let ghost g = self@;
        self.acts.push((Ptr::Ref(digit), Ptr::Con(i)));
        proof {
            let d0 = self@;
            assert forall|k: int| 0 <= k < d0.acts.len() implies {
                &&& inside((#[trigger] d0.acts[k]).0, d0.nodes.len())
                &&& inside(d0.acts[k].1, d0.nodes.len())
                &&& !d0.acts[k].0.is_var()
                &&& !d0.acts[k].1.is_var()
            } by {
                if k < g.acts.len() {
                    assert(d0.acts[k] == g.acts[k]);
                }
            }
        }
        let p1 = self.literal(n / 2, Ptr::Aux1(i));
        self.set(Ptr::Aux1(i), p1);
        Ptr::Aux2(i)
    }

    #[verifier::rlimit(40)]

    fn build(&mut self, t: &Term, at: Ptr) -> (p: Ptr)
        requires
            old(self)@.ok(),
            inside(at, old(self)@.nodes.len()),
            *t is Var ==> at.is_var(),
        ensures
            (final(self)@, p) == old(self)@.build(*t, at),
            final(self)@.ok(),
            final(self)@.nodes.len() == old(self)@.nodes.len() + size(*t),
            inside(p, final(self)@.nodes.len()),
        decreases t,
    {
        match t {
            Term::Era => Ptr::Era,
            Term::Ref(name) => Ptr::Ref(*name),
            Term::Num(v) => Ptr::Num(*v),
            Term::Var(x) => self.var(*x, at),
            Term::Lit(n) => self.literal(*n, at),
            Term::Ctr(lab, l, r) => {
                let i = self.grow(Ptr::Era, Ptr::Era);
                let p1 = self.build(l, Ptr::Aux1(i));
                self.set(Ptr::Aux1(i), p1);
                let p2 = self.build(r, Ptr::Aux2(i));
                self.set(Ptr::Aux2(i), p2);
                Ptr::node(*lab, i)
            },
            Term::Opr(op, l, r) => {
                let i = self.grow(Ptr::Era, Ptr::Era);
                let p1 = self.build(l, Ptr::Aux1(i));
                self.set(Ptr::Aux1(i), p1);
                let p2 = self.build(r, Ptr::Aux2(i));
                self.set(Ptr::Aux2(i), p2);
                Ptr::Opr(*op, i)
            },
        }
    }

    fn join(&mut self, a: Ptr, b: Ptr)
        requires
            old(self)@.ok(),
            inside(a, old(self)@.nodes.len()),
            inside(b, old(self)@.nodes.len()),
        ensures
            final(self)@ == old(self)@.join(a, b),
            final(self)@.ok(),
            final(self)@.nodes.len() == old(self)@.nodes.len(),
    {
        if a.is_var() {
            self.set(a, b);
            if b.is_var() {
                self.set(b, a);
            }
        } else if b.is_var() {
            self.set(b, a);
        } else {
            self.acts.push((a, b));
            proof {
                let g = old(self)@;
                let d0 = self@;
                assert forall|k: int| 0 <= k < d0.acts.len() implies {
                    &&& inside((#[trigger] d0.acts[k]).0, d0.nodes.len())
                    &&& inside(d0.acts[k].1, d0.nodes.len())
                    &&& !d0.acts[k].0.is_var()
                    &&& !d0.acts[k].1.is_var()
                } by {
                    if k < g.acts.len() {
                        assert(d0.acts[k] == g.acts[k]);
                    }
                }
            }
        }
    }
}

/// Appends the variables of `t` to `out`, in the order in which they occur.
fn collect(t: &Term, out: &mut Vec<u64>)
    ensures
        final(out)@ == old(out)@ + vars_of(*t),
    decreases t,
{
    match t {
        Term::Var(x) => {
            out.push(*x);
            assert(out@ =~= old(out)@ + vars_of(*t));
        },
        Term::Ctr(_, l, r) => {
            collect(l, out);
            collect(r, out);
            assert(out@ =~= old(out)@ + vars_of(*t));
        },
        Term::Opr(_, l, r) => {
            collect(l, out);
            collect(r, out);
            assert(out@ =~= old(out)@ + vars_of(*t));
        },
        _ => {
            assert(out@ =~= old(out)@ + vars_of(*t));
        },
    }
}

/// How often `x` occurs among the first `upto` of `vs`, counted up to three.
fn occurrences(vs: &Vec<u64>, upto: usize, x: u64) -> (c: usize)
    requires
        upto <= vs@.len(),
    ensures
        c <= 3,
        c < 3 ==> c == count(vs@.take(upto as int), x),
        c == 3 ==> count(vs@.take(upto as int), x) >= 3,
{
    let mut c: usize = 0;
    let mut j: usize = 0;
    assert(vs@.take(0) =~= Seq::<u64>::empty());
    while j < upto
        invariant
            j <= upto <= vs@.len(),
            c <= 2,
            c == count(vs@.take(j as int), x),
        decreases upto - j,
    {
        proof {
            lemma_count_take(vs@, j as int, x);
        }
        if vs[j] == x {
            c += 1;
            if c == 3 {
                proof {
                    lemma_count_grows(vs@.take(upto as int), (j + 1) as int, x);
                    assert(vs@.take(upto as int).take(j + 1) =~= vs@.take(j + 1));
                }
                return 3;
            }
        }
        j += 1;
    }
    c
}

/// A list holds `x` at least as often as any of its beginnings.
pub proof fn lemma_count_grows(vs: Seq<u64>, k: int, x: u64)
    requires
        0 <= k <= vs.len(),
    ensures
        count(vs.take(k), x) <= count(vs, x),
    decreases vs.len() - k,
{
    if k < vs.len() {
        lemma_count_take(vs, k, x);
        lemma_count_grows(vs, k + 1, x);
    } else {
        assert(vs.take(k) =~= vs);
    }
}

/// Judges the variables of a definition.
#[verifier::rlimit(40)]
pub fn check_linear(vs: &Vec<u64>) -> (r: Result<(), Error>)
    ensures
        r == check(vs@),
{
    let n = vs.len();
    let mut i: usize = 0;
    while i < n
        invariant
            i <= n,
            n == vs@.len(),
            first_third(vs@, i as nat) == first_third(vs@, 0),
        decreases n - i,
    {
        if occurrences(vs, i, vs[i]) >= 2 {
            return Err(Error::VariableReused(vs[i]));
        }
        i += 1;
    }
    let mut i: usize = 0;
    assert(vs@.take(n as int) =~= vs@);
    while i < n
        invariant
            i <= n,
            n == vs@.len(),
            vs@.take(n as int) == vs@,
            first_third(vs@, 0) is None,
            first_single(vs@, i as nat) == first_single(vs@, 0),
        decreases n - i,
    {
        if occurrences(vs, n, vs[i]) == 1 {
            return Err(Error::FreeVariable(vs[i]));
        }
        i += 1;
    }
    Ok(())
}

/// Compiles a definition into a template.
///
/// A side of a pair that is a bare variable is a syntax error. A variable
/// that occurs a third time is reported as reused, one that occurs only
/// once as free. Otherwise every variable becomes one wire between the
/// ports of its two occurrences.
#[verifier::rlimit(40)]
pub fn compile(def: &Def) -> (r: Result<Template, Error>)
    ensures
        match compiled(def@) {
            Ok(t) => r is Ok && r.unwrap()@ == t && template_sound(t),
            Err(e) => r == Err::<Template, Error>(e),
        },
{
    let mut k: usize = 0;
    while k < def.pairs.len()
        invariant
            k <= def.pairs@.len(),
            forall|j: int| 0 <= j < k ==> !((#[trigger] def.pairs@[j]).0 is Var) && !(def.pairs@[j].1 is Var),
        decreases def.pairs@.len() - k,
    {
        if is_variable(&def.pairs[k].0) || is_variable(&def.pairs[k].1) {
            return Err(Error::Syntax(0));
        }
        k += 1;
    }
    let mut vs: Vec<u64> = Vec::new();
    collect(&def.root, &mut vs);
    let mut k: usize = 0;
    assert(def.pairs@.take(0) =~= Seq::<(Term, Term)>::empty());
    assert(vs@ =~= vars_of(def.root) + pairs_vars(def.pairs@.take(0)));
    while k < def.pairs.len()
        invariant
            k <= def.pairs@.len(),
            vs@ == vars_of(def.root) + pairs_vars(def.pairs@.take(k as int)),
        decreases def.pairs@.len() - k,
    {
        let ghost before = vs@;
        collect(&def.pairs[k].0, &mut vs);
        collect(&def.pairs[k].1, &mut vs);
        proof {
            let next = def.pairs@.take(k + 1);
            assert(next.drop_last() =~= def.pairs@.take(k as int));
            assert(next.last() == def.pairs@[k as int]);
            assert(vs@ =~= vars_of(def.root) + pairs_vars(next));
        }
        k += 1;
    }
    assert(def.pairs@.take(k as int) =~= def.pairs@);
    check_linear(&vs)?;
    let mut b = Builder::new();
    let r = b.build(&def.root, Ptr::Root);
    b.set(Ptr::Root, r);
    let mut k: usize = 0;
    while k < def.pairs.len()
        invariant
            k <= def.pairs@.len(),
            well_shaped(def@),
            b@.ok(),
            b@.nodes.len() == size(def.root) + pairs_size(def.pairs@.take(k as int)),
            b@ == Draft::empty().build(def.root, Ptr::Root).0.set(
                Ptr::Root,
                Draft::empty().build(def.root, Ptr::Root).1,
            ).pairs(def.pairs@.take(k as int)),
        decreases def.pairs@.len() - k,
    {
        let pa = b.build(&def.pairs[k].0, Ptr::Era);
        let pb = b.build(&def.pairs[k].1, Ptr::Era);
        proof {
            lemma_inside_grows(pa, b@.nodes.len());
        }
        b.join(pa, pb);
        proof {
            let next = def.pairs@.take(k + 1);
            assert(next.drop_last() =~= def.pairs@.take(k as int));
            assert(next.last() == def.pairs@[k as int]);
        }
        k += 1;
    }
    assert(def.pairs@.take(k as int) =~= def.pairs@);
    proof {
        assert(b.nodes@.len() == b.nodes.len());
        crate::tidy::lemma_compiled_sound(def@);
    }
    Ok(Template { nodes: b.nodes, root: b.root, acts: b.acts })
}

/// A pointer that lies inside a draft lies inside every longer one.
pub proof fn lemma_inside_grows(p: Ptr, n: nat)
    ensures
        forall|m: nat| m <= n && inside(p, m) ==> inside(p, n),
{
}

/// What defining `name` as `code` does to a book: the new book and the
/// number of the name, or the error that stops it.
pub open spec fn defined(book: Map<u64, TemplateState>, name: Seq<u8>, code: Seq<u8>) -> Result<
    (Map<u64, TemplateState>, u64),
    Error,
> {
    match name_value(name) {
        None => Err(Error::Syntax(0)),
        Some(id) => match parse_def(code) {
            Err(e) => Err(e),
            Ok(d) => match compiled(d) {
                Err(e) => Err(e),
                Ok(t) => Ok((book.insert(id, t), id)),
            },
        },
    }
}

/// Compiles `code` and stores the template in the book under `name`,
/// replacing what was stored there. Returns the number of the name. The book
/// is left as it was if the name or the code is not accepted.
pub fn define(book: &mut Book, name: &str, code: &str) -> (r: Result<u64, Error>)
    requires
        old(book).wf(),
    ensures
        final(book).wf(),
        old(book).sound() ==> final(book).sound(),
        match defined(old(book)@, name.spec_bytes(), code.spec_bytes()) {
            Ok((b, id)) => r == Ok::<u64, Error>(id) && final(book)@ == b,
            Err(e) => r == Err::<u64, Error>(e) && final(book)@ == old(book)@,
        },
{
    let id = match name_to_val(name) {
        None => {
            return Err(Error::Syntax(0));
        },
        Some(id) => id,
    };
    let def = parse(code)?;
    let t = compile(&def)?;
    book.insert(id, t);
    Ok(id)
}

/// What `first_third` finds is a third occurrence, and the first one.
pub proof fn lemma_first_third(vs: Seq<u64>, from: nat)
    ensures
        match first_third(vs, from) {
            Some(i) => from <= i < vs.len() && third_at(vs, i as int),
            None => forall|i: int| from <= i < vs.len() ==> !third_at(vs, i),
        },
    decreases vs.len() - from,
{
    if from < vs.len() && !third_at(vs, from as int) {
        lemma_first_third(vs, from + 1);
    }
}

/// What `first_single` finds is a variable that occurs once, and the first
/// one.
pub proof fn lemma_first_single(vs: Seq<u64>, from: nat)
    ensures
        match first_single(vs, from) {
            Some(i) => from <= i < vs.len() && count(vs, vs[i as int]) == 1,
            None => forall|i: int| from <= i < vs.len() ==> count(vs, #[trigger] vs[i]) != 1,
        },
    decreases vs.len() - from,
{
    if from < vs.len() && count(vs, vs[from as int]) != 1 {
        lemma_first_single(vs, from + 1);
    }
}

/// A variable that occurs has a place where it occurs.
pub proof fn lemma_count_place(vs: Seq<u64>, x: u64)
    requires
        count(vs, x) > 0,
    ensures
        exists|i: int| 0 <= i < vs.len() && vs[i] == x,
    decreases vs.len(),
{
    if vs.last() == x {
        assert(vs[vs.len() - 1] == x);
    } else {
        lemma_count_place(vs.drop_last(), x);
        let i = choose|i: int| 0 <= i < vs.drop_last().len() && vs.drop_last()[i] == x;
        assert(vs[i] == x);
    }
}

/// A variable that occurs three times or more has a third occurrence.
pub proof fn lemma_count_third(vs: Seq<u64>, x: u64)
    requires
        count(vs, x) >= 3,
    ensures
        exists|i: int| 0 <= i < vs.len() && third_at(vs, i),
    decreases vs.len(),
{
    let n = vs.len() - 1;
    if vs.last() == x {
        assert(vs.take(n) =~= vs.drop_last());
        assert(third_at(vs, n));
    } else {
        lemma_count_third(vs.drop_last(), x);
        let i = choose|i: int| 0 <= i < vs.drop_last().len() && third_at(vs.drop_last(), i);
        assert(vs.drop_last().take(i) =~= vs.take(i));
        assert(third_at(vs, i));
    }
}

/// The verdict on the variables is favourable exactly if every variable
/// occurs twice; otherwise it names a variable as reused or as free.
#[verifier::rlimit(40)]
pub proof fn lemma_check(vs: Seq<u64>)
    ensures
        linear(vs) <==> check(vs) is Ok,
        check(vs) is Err ==> (check(vs)->Err_0 is VariableReused || check(vs)->Err_0 is FreeVariable),
        check(vs) matches Err(Error::VariableReused(x)) ==> count(vs, x) >= 3,
        check(vs) matches Err(Error::FreeVariable(x)) ==> count(vs, x) == 1,
{
    lemma_first_third(vs, 0);
    lemma_first_single(vs, 0);
    match first_third(vs, 0) {
        Some(i) => {
            lemma_count_take(vs, i as int, vs[i as int]);
            lemma_count_grows(vs, i as int + 1, vs[i as int]);
        },
        None => {
            if first_single(vs, 0) is None {
                assert forall|x: u64| count(vs, x) == 0 || count(vs, x) == 2 by {
                    if count(vs, x) > 0 {
                        lemma_count_place(vs, x);
                        if count(vs, x) >= 3 {
                            lemma_count_third(vs, x);
                        }
                    }
                }
            }
        },
    }
}

/// Compilation honours linearity: a definition none of whose pairs has a
/// bare variable as a side compiles exactly if every variable occurs twice
/// in it. If not, the error names a variable that occurs three times or
/// more as reused, or one that occurs once as free.
pub proof fn lemma_linearity(d: DefState)
    requires
        well_shaped(d),
    ensures
        linear(def_vars(d)) <==> compiled(d) is Ok,
        compiled(d) is Err ==> (compiled(d)->Err_0 is VariableReused || compiled(d)->Err_0
            is FreeVariable),
        compiled(d) matches Err(Error::VariableReused(x)) ==> count(def_vars(d), x) >= 3,
        compiled(d) matches Err(Error::FreeVariable(x)) ==> count(def_vars(d), x) == 1,
{
    lemma_check(def_vars(d));
}

} // verus!
