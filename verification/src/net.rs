//! The net: an arena of agents, a root port, the pending active pairs and two
//! counters.

use vstd::prelude::*;
use crate::error::Error;
use crate::ptr::Ptr;

verus! {

/// One arena slot: the targets of the two auxiliary ports of an agent, and
/// whether the slot currently holds an agent.
#[derive(Clone, Copy, Debug, PartialEq, Eq, Structural)]
pub struct Node {
    pub p1: Ptr,
    pub p2: Ptr,
    pub live: bool,
}

/// The mathematical model of a net.
pub struct NetState {
    /// The arena, one entry per slot.
    pub nodes: Seq<Node>,
    /// The addresses of the free slots; the last one is handed out next.
    pub free: Seq<u64>,
    /// What the root port is wired to.
    pub root: Ptr,
    /// The active pairs still to be rewritten; the last one is taken next.
    pub acts: Seq<(Ptr, Ptr)>,
    /// Rewrites performed.
    pub rwts: u64,
    /// References expanded.
    pub dref: u64,
}

/// An empty slot.
pub open spec fn blank() -> Node {
    Node { p1: Ptr::Era, p2: Ptr::Era, live: false }
}

impl NetState {
    /// A net of `capacity` free slots, handed out in ascending order.
    pub open spec fn fresh(capacity: nat) -> NetState {
        NetState {
            nodes: Seq::new(capacity, |i: int| blank()),
            free: Seq::new(capacity, |k: int| (capacity - 1 - k) as u64),
            root: Ptr::Era,
            acts: Seq::empty(),
            rwts: 0,
            dref: 0,
        }
    }

    /// The free list names each free slot once, and nothing else.
    pub open spec fn wf(self) -> bool {
        &&& self.nodes.len() <= usize::MAX
        &&& self.free.no_duplicates()
        &&& forall|k: int|
            0 <= k < self.free.len() ==> (#[trigger] self.free[k]) < self.nodes.len()
                && !self.nodes[self.free[k] as int].live
        &&& forall|i: int|
            0 <= i < self.nodes.len() && !(#[trigger] self.nodes[i]).live ==> self.free.contains(
                i as u64,
            )
    }

    /// Whether `addr` holds an agent.
    pub open spec fn is_live(self, addr: u64) -> bool {
        addr < self.nodes.len() && self.nodes[addr as int].live
    }

    /// The number of agents in the arena.
    pub open spec fn live_count(self) -> int {
        self.nodes.len() - self.free.len()
    }

    /// What is stored at port `p`, if `p` is a port inside the arena.
    pub open spec fn get(self, p: Ptr) -> Option<Ptr> {
        match p {
            Ptr::Root => Some(self.root),
            Ptr::Aux1(a) => if a < self.nodes.len() {
                Some(self.nodes[a as int].p1)
            } else {
                None
            },
            Ptr::Aux2(a) => if a < self.nodes.len() {
                Some(self.nodes[a as int].p2)
            } else {
                None
            },
            _ => None,
        }
    }

    /// Whether `p` is the root port or an auxiliary port of a live agent.
    pub open spec fn is_port(self, p: Ptr) -> bool {
        match p {
            Ptr::Root => true,
            Ptr::Aux1(a) => self.is_live(a),
            Ptr::Aux2(a) => self.is_live(a),
            _ => false,
        }
    }

    /// What a rewrite reads at port `p`.
    pub open spec fn read(self, p: Ptr) -> Result<Ptr, Error> {
        if self.is_port(p) {
            Ok(self.get(p).unwrap())
        } else {
            Err(Error::OutOfRange(p))
        }
    }

    /// The net with `v` stored at port `p`.
    pub open spec fn write(self, p: Ptr, v: Ptr) -> Result<NetState, Error> {
        if !self.is_port(p) {
            Err(Error::OutOfRange(p))
        } else {
            match p {
                Ptr::Aux1(a) => Ok(
                    NetState {
                        nodes: self.nodes.update(a as int, Node { p1: v, ..self.nodes[a as int] }),
                        ..self
                    },
                ),
                Ptr::Aux2(a) => Ok(
                    NetState {
                        nodes: self.nodes.update(a as int, Node { p2: v, ..self.nodes[a as int] }),
                        ..self
                    },
                ),
                _ => Ok(NetState { root: v, ..self }),
            }
        }
    }

    /// The net with `a` and `b` joined: each one that is a port now holds the
    /// other, and two agents facing each other become a pending active pair.
    pub open spec fn link(self, a: Ptr, b: Ptr) -> Result<NetState, Error> {
        if a.is_var() {
            match self.write(a, b) {
                Err(e) => Err(e),
                Ok(s) => if b.is_var() {
                    s.write(b, a)
                } else {
                    Ok(s)
                },
            }
        } else if b.is_var() {
            self.write(b, a)
        } else {
            Ok(NetState { acts: self.acts.push((a, b)), ..self })
        }
    }

    /// The net with one more agent, whose ports hold erasers, and its address.
    pub open spec fn allocate(self) -> Result<(NetState, u64), Error> {
        if self.free.len() == 0 {
            Err(Error::OutOfMemory)
        } else {
            let a = self.free.last();
            Ok(
                (
                    NetState {
                        nodes: self.nodes.update(
                            a as int,
                            Node { p1: Ptr::Era, p2: Ptr::Era, live: true },
                        ),
                        free: self.free.drop_last(),
                        ..self
                    },
                    a,
                ),
            )
        }
    }

    /// The net with the agent at `addr` removed.
    pub open spec fn release(self, addr: u64) -> Result<NetState, Error> {
        if self.is_live(addr) {
            Ok(
                NetState {
                    nodes: self.nodes.update(addr as int, blank()),
                    free: self.free.push(addr),
                    ..self
                },
            )
        } else {
            Err(Error::OutOfRange(Ptr::Con(addr)))
        }
    }
}

/// Whether an operation that returned `r` and left the net as `after` did what
/// `model` prescribes: the same state on success, the same error on failure.
pub open spec fn follows(r: Result<(), Error>, after: NetState, model: Result<NetState, Error>) -> bool {
    match model {
        Ok(s) => r is Ok && after == s,
        Err(e) => r == Err::<(), Error>(e),
    }
}

/// As `follows`, for an operation that also returns a value.
pub open spec fn yields<T>(
    r: Result<T, Error>,
    after: NetState,
    model: Result<(NetState, T), Error>,
) -> bool {
    match model {
        Ok(m) => r == Ok::<T, Error>(m.1) && after == m.0,
        Err(e) => r == Err::<T, Error>(e),
    }
}

/// A live net.
pub struct Net {
    pub nodes: Vec<Node>,
    pub free: Vec<u64>,
    pub root: Ptr,
    pub acts: Vec<(Ptr, Ptr)>,
    pub rwts: u64,
    pub dref: u64,
}

impl View for Net {
    type V = NetState;

    open spec fn view(&self) -> NetState {
        NetState {
            nodes: self.nodes@,
            free: self.free@,
            root: self.root,
            acts: self.acts@,
            rwts: self.rwts,
            dref: self.dref,
        }
    }
}

impl Net {
    /// A net whose arena has `capacity` slots, all free.
    pub fn new(capacity: usize) -> (net: Net)
        ensures
            net@ == NetState::fresh(capacity as nat),
            net@.wf(),
            crate::sound::sound(net@),
    {
        let mut nodes: Vec<Node> = Vec::new();
        let mut free: Vec<u64> = Vec::new();
        let mut i: usize = 0;
        while i < capacity
            invariant
                i <= capacity,
                nodes@.len() == i,
                free@.len() == i,
                forall|j: int| 0 <= j < i ==> nodes@[j] == blank(),
                forall|k: int| 0 <= k < i ==> free@[k] == (capacity - 1 - k) as u64,
            decreases capacity - i,
        {
            nodes.push(Node { p1: Ptr::Era, p2: Ptr::Era, live: false });
            free.push((capacity - 1 - i) as u64);
            i += 1;
        }
        let net = Net { nodes, free, root: Ptr::Era, acts: Vec::new(), rwts: 0, dref: 0 };
        proof {
            let s = NetState::fresh(capacity as nat);
            assert(net@.nodes =~= s.nodes);
            assert(net@.free =~= s.free);
            assert(net@.acts =~= s.acts);
            assert forall|i: int| 0 <= i < s.nodes.len() && !(#[trigger] s.nodes[i]).live implies s.free.contains(
                i as u64,
            ) by {
                assert(s.free[capacity - 1 - i] == i as u64);
            }
        }
        net
    }

    /// The number of slots of the arena.
    pub fn capacity(&self) -> (n: usize)
        ensures
            n == self@.nodes.len(),
    {
        self.nodes.len()
    }

    /// The number of agents in the arena.
    pub fn live_count(&self) -> (n: usize)
        requires
            self@.wf(),
        ensures
            n == self@.live_count(),
    {
        proof {
            lemma_free_fits(self@);
        }
        self.nodes.len() - self.free.len()
    }

    /// Reads the pointer stored at a port; `None` unless `p` is the root port
    /// or an auxiliary port whose address lies inside the arena.
    pub fn target(&self, p: Ptr) -> (t: Option<Ptr>)
        ensures
            t == self@.get(p),
    {
        match p {
            Ptr::Root => Some(self.root),
            Ptr::Aux1(a) => if a < self.nodes.len() as u64 {
                Some(self.nodes[a as usize].p1)
            } else {
                None
            },
            Ptr::Aux2(a) => if a < self.nodes.len() as u64 {
                Some(self.nodes[a as usize].p2)
            } else {
                None
            },
            _ => None,
        }
    }

    /// Whether `addr` holds an agent.
    pub fn is_live(&self, addr: u64) -> (b: bool)
        ensures
            b == self@.is_live(addr),
    {
        addr < self.nodes.len() as u64 && self.nodes[addr as usize].live
    }

    /// Whether `p` is the root port or an auxiliary port of a live agent.
    pub fn is_port(&self, p: Ptr) -> (b: bool)
        ensures
            b == self@.is_port(p),
    {
        match p {
            Ptr::Root => true,
            Ptr::Aux1(a) => self.is_live(a),
            Ptr::Aux2(a) => self.is_live(a),
            _ => false,
        }
    }

    /// Reads a port of a live agent, or the root port.
    pub fn read(&self, p: Ptr) -> (r: Result<Ptr, Error>)
        ensures
            r == self@.read(p),
    {
        match p {
            Ptr::Root => Ok(self.root),
            Ptr::Aux1(a) => {
                if a < self.nodes.len() as u64 {
                    let node = &self.nodes[a as usize];
                    if node.live {
                        return Ok(node.p1);
                    }
                }
                Err(Error::OutOfRange(p))
            },
            Ptr::Aux2(a) => {
                if a < self.nodes.len() as u64 {
                    let node = &self.nodes[a as usize];
                    if node.live {
                        return Ok(node.p2);
                    }
                }
                Err(Error::OutOfRange(p))
            },
            _ => Err(Error::OutOfRange(p)),
        }
    }

    /// Stores `v` at a port of a live agent, or at the root port.
    pub fn write(&mut self, p: Ptr, v: Ptr) -> (r: Result<(), Error>)
        requires
            old(self)@.wf(),
        ensures
            final(self)@.wf(),
            follows(r, final(self)@, old(self)@.write(p, v)),
            r is Err ==> final(self)@ == old(self)@,
    {
        match p {
            Ptr::Root => {
                self.root = v;
            },
            Ptr::Aux1(a) => {
                if !(a < self.nodes.len() as u64 && self.nodes[a as usize].live) {
                    return Err(Error::OutOfRange(p));
                }
                self.nodes[a as usize].p1 = v;
            },
            Ptr::Aux2(a) => {
                if !(a < self.nodes.len() as u64 && self.nodes[a as usize].live) {
                    return Err(Error::OutOfRange(p));
                }
                self.nodes[a as usize].p2 = v;
            },
            _ => {
                return Err(Error::OutOfRange(p));
            },
        }
        proof {
            lemma_write_wf(old(self)@, p, v);
        }
        Ok(())
    }

    /// Joins `a` and `b`: each one that is a port is made to hold the other;
    /// two agents become a pending active pair.
    pub fn link(&mut self, a: Ptr, b: Ptr) -> (r: Result<(), Error>)
        requires
            old(self)@.wf(),
        ensures
            final(self)@.wf(),
            follows(r, final(self)@, old(self)@.link(a, b)),
    {
        if a.is_var() {
            self.write(a, b)?;
            if b.is_var() {
                self.write(b, a)?;
            }
        } else if b.is_var() {
            self.write(b, a)?;
        } else {
            self.acts.push((a, b));
        }
        Ok(())
    }

    /// Takes a free slot and makes it an agent whose ports hold erasers.
    pub fn allocate(&mut self) -> (r: Result<u64, Error>)
        requires
            old(self)@.wf(),
        ensures
            final(self)@.wf(),
            yields(r, final(self)@, old(self)@.allocate()),
            r is Err ==> final(self)@ == old(self)@,
    {
        match self.free.pop() {
            None => Err(Error::OutOfMemory),
            Some(a) => {
                assert(old(self)@.free[old(self)@.free.len() - 1] == a);
                self.nodes[a as usize] = Node { p1: Ptr::Era, p2: Ptr::Era, live: true };
                proof {
                    lemma_alloc_wf(old(self)@);
                }
                Ok(a)
            },
        }
    }

    /// Returns the agent at `addr` to the free list.
    pub fn free(&mut self, addr: u64) -> (r: Result<(), Error>)
        requires
            old(self)@.wf(),
        ensures
            final(self)@.wf(),
            follows(r, final(self)@, old(self)@.release(addr)),
            r is Err ==> final(self)@ == old(self)@,
    {
        if !self.is_live(addr) {
            return Err(Error::OutOfRange(Ptr::Con(addr)));
        }
        self.nodes[addr as usize] = Node { p1: Ptr::Era, p2: Ptr::Era, live: false };
        self.free.push(addr);
        proof {
            lemma_release_wf(old(self)@, addr);
        }
        Ok(())
    }
}

/// A well-formed free list is no longer than the arena.
pub proof fn lemma_free_fits(s: NetState)
    requires
        s.wf(),
    ensures
        s.free.len() <= s.nodes.len(),
{
    let addrs = s.free.to_set();
    let all = Set::new(|a: u64| a < s.nodes.len());
    s.free.unique_seq_to_set();
    assert(addrs.subset_of(all)) by {
        assert forall|a: u64| addrs.contains(a) implies all.contains(a) by {
            let k = choose|k: int| 0 <= k < s.free.len() && s.free[k] == a;
            assert(s.free[k] < s.nodes.len());
        }
    }
    lemma_below_finite(s.nodes.len());
    vstd::set_lib::lemma_len_subset(addrs, all);
}

/// There are exactly `n` addresses below `n`.
pub proof fn lemma_below_finite(n: nat)
    requires
        n <= u64::MAX,
    ensures
        Set::new(|a: u64| a < n).finite(),
        Set::new(|a: u64| a < n).len() == n,
    decreases n,
{
    let all = Set::new(|a: u64| a < n);
    if n == 0 {
        assert(all =~= Set::<u64>::empty());
    } else {
        let m = (n - 1) as nat;
        let rest = Set::new(|a: u64| a < m);
        lemma_below_finite(m);
        assert(all =~= rest.insert(m as u64));
    }
}

/// Writing a port keeps the free list right.
pub proof fn lemma_write_wf(s: NetState, p: Ptr, v: Ptr)
    requires
        s.wf(),
        s.write(p, v) is Ok,
    ensures
        s.write(p, v).unwrap().wf(),
        s.write(p, v).unwrap().free == s.free,
        s.write(p, v).unwrap().nodes.len() == s.nodes.len(),
        forall|a: u64| s.write(p, v).unwrap().is_live(a) == s.is_live(a),
{
    let t = s.write(p, v).unwrap();
    assert forall|i: int| 0 <= i < t.nodes.len() && !(#[trigger] t.nodes[i]).live implies t.free.contains(
        i as u64,
    ) by {
        assert(!s.nodes[i].live);
    }
}

/// Joining two pointers keeps the free list right, and the counters.
pub proof fn lemma_link_wf(s: NetState, a: Ptr, b: Ptr)
    requires
        s.wf(),
        s.link(a, b) is Ok,
    ensures
        s.link(a, b).unwrap().wf(),
        s.link(a, b).unwrap().free == s.free,
        s.link(a, b).unwrap().nodes.len() == s.nodes.len(),
        s.link(a, b).unwrap().rwts == s.rwts,
        s.link(a, b).unwrap().dref == s.dref,
        forall|x: u64| s.link(a, b).unwrap().is_live(x) == s.is_live(x),
{
    if a.is_var() {
        lemma_write_wf(s, a, b);
        if b.is_var() {
            lemma_write_wf(s.write(a, b).unwrap(), b, a);
        }
    } else if b.is_var() {
        lemma_write_wf(s, b, a);
    }
}

/// Taking a slot keeps the free list right.
pub proof fn lemma_alloc_wf(s: NetState)
    requires
        s.wf(),
        s.allocate() is Ok,
    ensures
        s.allocate().unwrap().0.wf(),
        !s.is_live(s.allocate().unwrap().1),
        s.allocate().unwrap().0.is_live(s.allocate().unwrap().1),
        s.allocate().unwrap().0.live_count() == s.live_count() + 1,
{
    let t = s.allocate().unwrap().0;
    let a = s.allocate().unwrap().1;
    let n = s.free.len() - 1;
    assert(s.free[n] == a);
    assert forall|k: int| 0 <= k < t.free.len() implies (#[trigger] t.free[k]) < t.nodes.len()
        && !t.nodes[t.free[k] as int].live by {
        assert(t.free[k] == s.free[k]);
        assert(s.free[k] != s.free[n]);
    }
    assert forall|i: int| 0 <= i < t.nodes.len() && !(#[trigger] t.nodes[i]).live implies t.free.contains(
        i as u64,
    ) by {
        assert(!s.nodes[i].live);
        let k = choose|k: int| 0 <= k < s.free.len() && s.free[k] == i as u64;
        assert(t.free[k] == i as u64);
    }
}

/// Giving a slot back keeps the free list right.
pub proof fn lemma_release_wf(s: NetState, addr: u64)
    requires
        s.wf(),
        s.release(addr) is Ok,
    ensures
        s.release(addr).unwrap().wf(),
        s.release(addr).unwrap().live_count() == s.live_count() - 1,
{
    let t = s.release(addr).unwrap();
    assert forall|i: int, j: int|
        0 <= i < t.free.len() && 0 <= j < t.free.len() && i != j implies t.free[i] != t.free[j] by {
        if i < s.free.len() {
            assert(t.free[i] == s.free[i]);
        }
        if j < s.free.len() {
            assert(t.free[j] == s.free[j]);
        }
    }
    assert forall|k: int| 0 <= k < t.free.len() implies (#[trigger] t.free[k]) < t.nodes.len()
        && !t.nodes[t.free[k] as int].live by {
        if k < s.free.len() {
            assert(t.free[k] == s.free[k]);
        }
    }
    assert forall|i: int| 0 <= i < t.nodes.len() && !(#[trigger] t.nodes[i]).live implies t.free.contains(
        i as u64,
    ) by {
        if i == addr {
            assert(t.free[s.free.len() as int] == addr);
        } else {
            let k = choose|k: int| 0 <= k < s.free.len() && s.free[k] == i as u64;
            assert(t.free[k] == i as u64);
        }
    }
}

} // verus!
