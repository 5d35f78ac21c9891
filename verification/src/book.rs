//! The book: named definitions, kept as templates that are copied into a net
//! on demand.

use vstd::prelude::*;
use std::collections::HashMap;
use crate::error::Error;
use crate::net::{yields, Net, NetState, Node};
use crate::ptr::Ptr;

verus! {

broadcast use vstd::std_specs::hash::group_hash_axioms;

/// A compiled definition. Addresses inside it count from the template's own
/// first agent, so that it can be copied to any place of an arena.
pub struct Template {
    pub nodes: Vec<Node>,
    pub root: Ptr,
    pub acts: Vec<(Ptr, Ptr)>,
}

/// The mathematical model of a template.
pub struct TemplateState {
    /// The agents; entry `i` has the relative address `i`.
    pub nodes: Seq<Node>,
    /// What the definition offers at its root.
    pub root: Ptr,
    /// The active pairs that the definition starts with.
    pub acts: Seq<(Ptr, Ptr)>,
}

impl View for Template {
    type V = TemplateState;

    open spec fn view(&self) -> TemplateState {
        TemplateState { nodes: self.nodes@, root: self.root, acts: self.acts@ }
    }
}

/// Whether `p`, if it addresses an agent, addresses one of the first `n`.
pub open spec fn inside(p: Ptr, n: nat) -> bool {
    (p is Root || p.is_nul()) || p.val() < n
}

/// The pointer `p` of a template, moved into an arena where the template's
/// agent `i` lives at `locs[i]`.
pub open spec fn reloc(p: Ptr, locs: Seq<u64>) -> Ptr {
    if p is Root || p.is_nul() {
        p
    } else {
        p.at(locs[p.val() as int])
    }
}

/// A template's agent, moved likewise.
pub open spec fn reloc_node(n: Node, locs: Seq<u64>) -> Node {
    Node { p1: reloc(n.p1, locs), p2: reloc(n.p2, locs), live: true }
}

/// The arena `nodes` after the first `k` agents of a template were copied to
/// their places.
pub open spec fn place(nodes: Seq<Node>, agents: Seq<Node>, locs: Seq<u64>, k: nat) -> Seq<Node>
    decreases k,
{
    if k == 0 {
        nodes
    } else {
        place(nodes, agents, locs, (k - 1) as nat).update(
            locs[k - 1] as int,
            reloc_node(agents[k - 1], locs),
        )
    }
}

impl TemplateState {
    /// Every address in the template names one of its own agents, and its
    /// active pairs are made of agents.
    pub open spec fn wf(self) -> bool {
        let n = self.nodes.len();
        &&& inside(self.root, n)
        &&& forall|i: int|
            0 <= i < n ==> inside((#[trigger] self.nodes[i]).p1, n) && inside(self.nodes[i].p2, n)
        &&& forall|k: int|
            0 <= k < self.acts.len() ==> {
                &&& inside((#[trigger] self.acts[k]).0, n)
                &&& inside(self.acts[k].1, n)
                &&& !self.acts[k].0.is_var()
                &&& !self.acts[k].1.is_var()
            }
    }

    /// What the port `p` of the template holds; the root stands for every
    /// pointer that is no auxiliary port.
    pub open spec fn get(self, p: Ptr) -> Ptr {
        match p {
            Ptr::Aux1(i) => self.nodes[i as int].p1,
            Ptr::Aux2(i) => self.nodes[i as int].p2,
            _ => self.root,
        }
    }

    /// Whether `p` is an auxiliary port of an agent of the template.
    pub open spec fn is_port(self, p: Ptr) -> bool {
        (p is Aux1 || p is Aux2) && p.val() < self.nodes.len()
    }

    /// Whether the template has no dangling port: a port that holds a port
    /// is one end of a wire, whose other end is a different port that holds
    /// it in turn. The root counts as a port: a port of an agent holds the
    /// root exactly if it is what the template offers at its root.
    pub open spec fn closed(self) -> bool {
        &&& self.wf()
        &&& forall|p: Ptr| #[trigger]
            self.is_port(p) && self.get(p).is_var() ==> (if self.get(p) is Root {
                self.root == p
            } else {
                self.get(p) != p && self.get(self.get(p)) == p
            })
        &&& self.root.is_var() ==> !(self.root is Root) && self.get(self.root) == Ptr::Root
    }

    /// Where the agents of this template go in a net whose free list is
    /// `free`: the first agent to the slot handed out first.
    pub open spec fn places(self, free: Seq<u64>) -> Seq<u64> {
        Seq::new(self.nodes.len(), |i: int| free[free.len() - 1 - i])
    }

    /// The template's active pairs, moved into the arena.
    pub open spec fn moved_acts(self, locs: Seq<u64>) -> Seq<(Ptr, Ptr)> {
        Seq::new(
            self.acts.len(),
            |k: int| (reloc(self.acts[k].0, locs), reloc(self.acts[k].1, locs)),
        )
    }
}

impl NetState {
    /// The net with a copy of the template `t` in it, and the root of the
    /// copy. Nothing is copied unless every agent finds a slot.
    pub open spec fn instantiate(self, t: TemplateState) -> Result<(NetState, Ptr), Error> {
        let n = t.nodes.len();
        if self.free.len() < n {
            Err(Error::OutOfMemory)
        } else {
            let locs = t.places(self.free);
            Ok(
                (
                    NetState {
                        nodes: place(self.nodes, t.nodes, locs, n),
                        free: self.free.take(self.free.len() - n),
                        acts: self.acts + t.moved_acts(locs),
                        ..self
                    },
                    reloc(t.root, locs),
                ),
            )
        }
    }
}

/// What copying the first `k` agents of a template does to the arena: the
/// places hold the moved agents, and every other slot is as before.
pub proof fn lemma_place(nodes: Seq<Node>, agents: Seq<Node>, locs: Seq<u64>, k: nat)
    requires
        k <= locs.len(),
        locs.no_duplicates(),
        forall|i: int| 0 <= i < locs.len() ==> (#[trigger] locs[i]) < nodes.len(),
    ensures
        place(nodes, agents, locs, k).len() == nodes.len(),
        forall|i: int|
            0 <= i < k ==> place(nodes, agents, locs, k)[(#[trigger] locs[i]) as int] == reloc_node(
                agents[i],
                locs,
            ),
        forall|j: int|
            0 <= j < nodes.len() && (forall|i: int| 0 <= i < k ==> locs[i] != j) ==> (#[trigger] place(
                nodes,
                agents,
                locs,
                k,
            )[j]) == nodes[j],
    decreases k,
{
    if k > 0 {
        lemma_place(nodes, agents, locs, (k - 1) as nat);
        let before = place(nodes, agents, locs, (k - 1) as nat);
        assert forall|i: int| 0 <= i < k implies place(nodes, agents, locs, k)[(#[trigger] locs[i]) as int]
            == reloc_node(agents[i], locs) by {
            if i < k - 1 {
                assert(locs[i] != locs[k - 1]);
            }
        }
    }
}

/// Copying a template into a well-formed net leaves it well formed, with as
/// many more agents as the template has.
#[verifier::rlimit(40)]
pub proof fn lemma_instantiate_wf(s: NetState, t: TemplateState)
    requires
        s.wf(),
        s.instantiate(t) is Ok,
    ensures
        s.instantiate(t).unwrap().0.wf(),
        s.instantiate(t).unwrap().0.live_count() == s.live_count() + t.nodes.len(),
{
    let n = t.nodes.len();
    let m = s.free.len();
    let locs = t.places(s.free);
    let after = s.instantiate(t).unwrap().0;
    assert forall|i: int, j: int| 0 <= i < n && 0 <= j < n && i != j implies locs[i] != locs[j] by {
        assert(locs[i] == s.free[m - 1 - i]);
        assert(locs[j] == s.free[m - 1 - j]);
    }
    assert forall|i: int| 0 <= i < n implies (#[trigger] locs[i]) < s.nodes.len() by {
        assert(locs[i] == s.free[m - 1 - i]);
    }
    lemma_place(s.nodes, t.nodes, locs, n);
    assert forall|k: int| 0 <= k < after.free.len() implies (#[trigger] after.free[k]) < after.nodes.len()
        && !after.nodes[after.free[k] as int].live by {
        assert(after.free[k] == s.free[k]);
        assert forall|i: int| 0 <= i < n implies locs[i] != s.free[k] by {
            assert(locs[i] == s.free[m - 1 - i]);
        }
    }
    assert forall|j: int| 0 <= j < after.nodes.len() && !(#[trigger] after.nodes[j]).live implies after.free.contains(
        j as u64,
    ) by {
        if exists|i: int| 0 <= i < n && locs[i] == j {
            let i = choose|i: int| 0 <= i < n && locs[i] == j;
            assert(after.nodes[locs[i] as int] == reloc_node(t.nodes[i], locs));
        } else {
            assert(after.nodes[j] == s.nodes[j]);
            let k = choose|k: int| 0 <= k < m && s.free[k] == j as u64;
            if k >= m - n {
                assert(locs[m - 1 - k] == s.free[k]);
            }
            assert(after.free[k] == j as u64);
        }
    }
}

/// Moves a pointer of a template with `n` agents into an arena whose free
/// list is `free`: the template's agent `i` goes to the slot that the free
/// list hands out as its `i`-th.
pub fn relocate(p: Ptr, free: &Vec<u64>, n: usize) -> (q: Ptr)
    requires
        inside(p, n as nat),
        n <= free@.len(),
    ensures
        q == reloc(p, Seq::new(n as nat, |i: int| free@[free@.len() - 1 - i])),
{
    let m = free.len();
    match p {
        Ptr::Aux1(i) => Ptr::Aux1(free[m - 1 - i as usize]),
        Ptr::Aux2(i) => Ptr::Aux2(free[m - 1 - i as usize]),
        Ptr::Con(i) => Ptr::Con(free[m - 1 - i as usize]),
        Ptr::Dup(c, i) => Ptr::Dup(c, free[m - 1 - i as usize]),
        Ptr::Opr(o, i) => Ptr::Opr(o, free[m - 1 - i as usize]),
        _ => p,
    }
}

impl Net {
    /// Copies the template into the arena: every agent of the template gets
    /// a fresh slot, its pointers are moved accordingly, and the template's
    /// active pairs join the pending ones. Returns the root of the copy.
    #[verifier::rlimit(40)]
    pub fn instantiate(&mut self, t: &Template) -> (r: Result<Ptr, Error>)
        requires
            old(self)@.wf(),
            t@.wf(),
        ensures
            final(self)@.wf(),
            yields(r, final(self)@, old(self)@.instantiate(t@)),
            r is Err ==> final(self)@ == old(self)@,
    {
        let n = t.nodes.len();
        let m = self.free.len();
        if m < n {
            return Err(Error::OutOfMemory);
        }
        let ghost s = self@;
        let ghost want = t@.places(s.free);
        proof {
            lemma_instantiate_wf(s, t@);
            assert forall|i: int, j: int| 0 <= i < n && 0 <= j < n && i != j implies want[i]
                != want[j] by {
                assert(want[i] == s.free[m - 1 - i]);
                assert(want[j] == s.free[m - 1 - j]);
            }
            assert forall|i: int| 0 <= i < n implies (#[trigger] want[i]) < s.nodes.len() by {
                assert(want[i] == s.free[m - 1 - i]);
            }
        }
        let mut i: usize = 0;
        while i < n
            invariant
                i <= n,
                n == t@.nodes.len(),
                m == s.free.len(),
                n <= m,
                t@.wf(),
                want == t@.places(s.free),
                want.no_duplicates(),
                forall|j: int| 0 <= j < n ==> (#[trigger] want[j]) < s.nodes.len(),
                s.nodes.len() <= usize::MAX,
                self@ == (NetState { nodes: place(s.nodes, t@.nodes, want, i as nat), ..s }),
            decreases n - i,
        {
            proof {
                lemma_place(s.nodes, t@.nodes, want, i as nat);
            }
            let node = t.nodes[i];
            let p1 = relocate(node.p1, &self.free, n);
            let p2 = relocate(node.p2, &self.free, n);
            let a = self.free[m - 1 - i];
            assert(a == want[i as int]);
            self.nodes[a as usize] = Node { p1, p2, live: true };
            i += 1;
        }
        let mut k: usize = 0;
        while k < t.acts.len()
            invariant
                k <= t@.acts.len(),
                n == t@.nodes.len(),
                m == s.free.len(),
                n <= m,
                t@.wf(),
                want == t@.places(s.free),
                self@ == (NetState {
                    nodes: place(s.nodes, t@.nodes, want, n as nat),
                    acts: s.acts + t@.moved_acts(want).take(k as int),
                    ..s
                }),
            decreases t@.acts.len() - k,
        {
            let pair = t.acts[k];
            let a = relocate(pair.0, &self.free, n);
            let b = relocate(pair.1, &self.free, n);
            self.acts.push((a, b));
            assert(self@.acts =~= s.acts + t@.moved_acts(want).take(k + 1));
            k += 1;
        }
        assert(t@.moved_acts(want).take(k as int) =~= t@.moved_acts(want));
        let root = relocate(t.root, &self.free, n);
        self.free.truncate(m - n);
        assert(self@.free =~= s.free.take(m - n));
        Ok(root)
    }
}

/// The registry of definitions, by name.
pub struct Book {
    pub defs: HashMap<u64, Template>,
}

impl View for Book {
    type V = Map<u64, TemplateState>;

    open spec fn view(&self) -> Map<u64, TemplateState> {
        Map::new(|name: u64| self.defs@.contains_key(name), |name: u64| self.defs@[name]@)
    }
}

impl Book {
    /// Every definition in the book is a well-formed template.
    pub open spec fn wf(&self) -> bool {
        forall|name: u64| #[trigger] self@.contains_key(name) ==> self@[name].wf()
    }

    /// Every definition in the book is a sound template: it has no
    /// dangling port and points to each of its agents from one place only.
    pub open spec fn sound(&self) -> bool {
        crate::sound::book_sound(self@)
    }

    /// A book without definitions.
    pub fn new() -> (book: Book)
        ensures
            book@ == Map::<u64, TemplateState>::empty(),
            book.wf(),
            book.sound(),
    {
        let book = Book { defs: HashMap::new() };
        assert(book@ =~= Map::<u64, TemplateState>::empty());
        book
    }

    /// Stores `t` under `name`. A definition already stored under that name
    /// is replaced.
    pub fn insert(&mut self, name: u64, t: Template)
        requires
            old(self).wf(),
            t@.wf(),
        ensures
            final(self).wf(),
            final(self)@ == old(self)@.insert(name, t@),
            old(self).sound() && crate::sound::template_sound(t@) ==> final(self).sound(),
    {
        self.defs.insert(name, t);
        assert(self@ =~= old(self)@.insert(name, t@));
    }

    /// The template stored under `name`, if there is one.
    pub fn lookup(&self, name: u64) -> (t: Option<&Template>)
        ensures
            match t {
                Some(t) => self@.contains_key(name) && self@[name] == t@,
                None => !self@.contains_key(name),
            },
    {
        self.defs.get(&name)
    }
}

} // verus!
