//! The rewrite rules: what happens to one active pair.

use vstd::prelude::*;
use crate::book::{Book, TemplateState};
use crate::sound::{enough, hand, lack, lemma_step_sound, pair_ok, sound, sound_but};
use crate::error::Error;
use crate::net::{follows, yields, Net, NetState, Node};
use crate::ptr::Ptr;

verus! {

/// `+`: the sum.
pub const OP_ADD: u32 = 0;

/// `-`: the difference.
pub const OP_SUB: u32 = 1;

/// `*`: the product.
pub const OP_MUL: u32 = 2;

/// `/`: the quotient.
pub const OP_DIV: u32 = 3;

/// `%`: the remainder.
pub const OP_REM: u32 = 4;

/// `&`: the bitwise and.
pub const OP_AND: u32 = 5;

/// `|`: the bitwise or.
pub const OP_OR: u32 = 6;

/// `^`: the bitwise exclusive or.
pub const OP_XOR: u32 = 7;

/// `=`: one if equal, else zero.
pub const OP_EQ: u32 = 8;

/// `<`: one if less, else zero.
pub const OP_LT: u32 = 9;

/// `>`: one if greater, else zero.
pub const OP_GT: u32 = 10;

/// Added to an opcode whose operands arrive in reverse order.
pub const OP_FLIP: u32 = 16;

/// `n op m` on 64-bit numerals. Sums, differences and products wrap around;
/// a quotient or remainder by zero is zero; a comparison gives one or zero;
/// an unknown opcode gives zero.
pub open spec fn apply(op: u32, n: u64, m: u64) -> u64 {
    if op == OP_ADD {
        if n + m > u64::MAX {
            (n + m - 0x1_0000_0000_0000_0000) as u64
        } else {
            (n + m) as u64
        }
    } else if op == OP_SUB {
        if n - m < 0 {
            (n - m + 0x1_0000_0000_0000_0000) as u64
        } else {
            (n - m) as u64
        }
    } else if op == OP_MUL {
        ((n as nat * m as nat) % 0x1_0000_0000_0000_0000 as nat) as u64
    } else if op == OP_DIV {
        if m == 0 {
            0
        } else {
            n / m
        }
    } else if op == OP_REM {
        if m == 0 {
            0
        } else {
            n % m
        }
    } else if op == OP_AND {
        n & m
    } else if op == OP_OR {
        n | m
    } else if op == OP_XOR {
        n ^ m
    } else if op == OP_EQ {
        if n == m {
            1
        } else {
            0
        }
    } else if op == OP_LT {
        if n < m {
            1
        } else {
            0
        }
    } else if op == OP_GT {
        if n > m {
            1
        } else {
            0
        }
    } else {
        0
    }
}

/// The opcode that takes its operands the other way round.
pub open spec fn flip(op: u32) -> u32 {
    if op < OP_FLIP {
        (op + OP_FLIP) as u32
    } else {
        (op - OP_FLIP) as u32
    }
}

/// What an operator with opcode `op` makes of the numeral `n` at its
/// principal port and the numeral `m` at its first auxiliary port.
pub open spec fn compute(op: u32, n: u64, m: u64) -> u64 {
    if op >= OP_FLIP {
        apply((op - OP_FLIP) as u32, m, n)
    } else {
        apply(op, n, m)
    }
}

/// Whether two agents facing each other cancel out: two constructors, or two
/// duplicators of one color.
pub open spec fn annihilates(a: Ptr, b: Ptr) -> bool {
    match (a, b) {
        (Ptr::Con(_), Ptr::Con(_)) => true,
        (Ptr::Dup(c, _), Ptr::Dup(d, _)) => c == d,
        _ => false,
    }
}

/// Whether the reference `a`, facing `b`, is expanded.
pub open spec fn expands(a: Ptr, b: Ptr) -> bool {
    a is Ref && !b.is_var() && b != Ptr::Era
}

impl NetState {
    /// Joins whatever port `p` holds with `v`.
    pub open spec fn wire(self, p: Ptr, v: Ptr) -> Result<NetState, Error> {
        match self.read(p) {
            Err(e) => Err(e),
            Ok(x) => self.link(x, v),
        }
    }

    /// Joins whatever port `p` holds with whatever port `q` holds.
    pub open spec fn join(self, p: Ptr, q: Ptr) -> Result<NetState, Error> {
        match self.read(p) {
            Err(e) => Err(e),
            Ok(x) => match self.read(q) {
                Err(e) => Err(e),
                Ok(y) => self.link(x, y),
            },
        }
    }

    /// Sets both ports of the live agent at `addr`.
    pub open spec fn fill(self, addr: u64, p1: Ptr, p2: Ptr) -> Result<NetState, Error> {
        if self.is_live(addr) {
            Ok(NetState { nodes: self.nodes.update(addr as int, Node { p1, p2, live: true }), ..self })
        } else {
            Err(Error::OutOfRange(Ptr::Con(addr)))
        }
    }

    /// An agent without ports meets the two-port agent at `addr`: a copy of
    /// it goes to whatever each port of the agent held, and the agent is
    /// removed. The second port is read after the first was dealt with, so
    /// that an agent whose ports are wired to each other is handled too.
    #[verifier::opaque]
    pub open spec fn erase(self, n: Ptr, addr: u64) -> Result<NetState, Error> {
        match self.wire(Ptr::Aux1(addr), n) {
            Err(e) => Err(e),
            Ok(s1) => match s1.wire(Ptr::Aux2(addr), n) {
                Err(e) => Err(e),
                Ok(s2) => s2.release(addr),
            },
        }
    }

    /// Two agents of one kind cancel out: their first ports are joined, then
    /// their second ports, and both agents are removed.
    #[verifier::opaque]
    pub open spec fn annihilate(self, a: u64, b: u64) -> Result<NetState, Error> {
        match self.join(Ptr::Aux1(a), Ptr::Aux1(b)) {
            Err(e) => Err(e),
            Ok(s1) => match s1.join(Ptr::Aux2(a), Ptr::Aux2(b)) {
                Err(e) => Err(e),
                Ok(s2) => match s2.release(a) {
                    Err(e) => Err(e),
                    Ok(s3) => s3.release(b),
                },
            },
        }
    }

    /// Four more agents, and their addresses in the order handed out.
    pub open spec fn allocate4(self) -> Result<(NetState, (u64, u64, u64, u64)), Error> {
        match self.allocate() {
            Err(e) => Err(e),
            Ok((s1, w)) => match s1.allocate() {
                Err(e) => Err(e),
                Ok((s2, x)) => match s2.allocate() {
                    Err(e) => Err(e),
                    Ok((s3, y)) => match s3.allocate() {
                        Err(e) => Err(e),
                        Ok((s4, z)) => Ok((s4, (w, x, y, z))),
                    },
                },
            },
        }
    }

    /// What the ports of `a` and `b` held is joined with the principal
    /// ports of the copies: those of `b` (at `b1`, `b2`) behind the ports of
    /// `a`, those of `a` (at `a1`, `a2`) behind the ports of `b`.
    pub open spec fn pass(self, a: Ptr, b: Ptr, b1: u64, b2: u64, a1: u64, a2: u64) -> Result<
        NetState,
        Error,
    > {
        match self.wire(Ptr::Aux1(a.val()), b.at(b1)) {
            Err(e) => Err(e),
            Ok(s1) => match s1.wire(Ptr::Aux1(b.val()), a.at(a1)) {
                Err(e) => Err(e),
                Ok(s2) => match s2.wire(Ptr::Aux2(a.val()), b.at(b2)) {
                    Err(e) => Err(e),
                    Ok(s3) => s3.wire(Ptr::Aux2(b.val()), a.at(a2)),
                },
            },
        }
    }

    /// The four copies are wired to each other: each copy of `b` sees both
    /// copies of `a`, and each copy of `a` both copies of `b`.
    pub open spec fn mesh(self, b1: u64, b2: u64, a1: u64, a2: u64) -> Result<NetState, Error> {
        match self.fill(b1, Ptr::Aux1(a1), Ptr::Aux1(a2)) {
            Err(e) => Err(e),
            Ok(s1) => match s1.fill(b2, Ptr::Aux2(a1), Ptr::Aux2(a2)) {
                Err(e) => Err(e),
                Ok(s2) => match s2.fill(a1, Ptr::Aux1(b1), Ptr::Aux1(b2)) {
                    Err(e) => Err(e),
                    Ok(s3) => s3.fill(a2, Ptr::Aux2(b1), Ptr::Aux2(b2)),
                },
            },
        }
    }

    /// Two agents of different kinds pass through each other: each is
    /// copied, the copies of one go behind the ports of the other, and the
    /// two originals are removed. Both must be live before anything is
    /// allocated.
    #[verifier::opaque]
    pub open spec fn commute(self, a: Ptr, b: Ptr) -> Result<NetState, Error> {
        if !self.is_live(a.val()) {
            Err(Error::OutOfRange(a))
        } else if !self.is_live(b.val()) {
            Err(Error::OutOfRange(b))
        } else {
            match self.allocate4() {
                Err(e) => Err(e),
                Ok((s1, (b1, b2, a1, a2))) => match s1.pass(a, b, b1, b2, a1, a2) {
                    Err(e) => Err(e),
                    Ok(s2) => match s2.mesh(b1, b2, a1, a2) {
                        Err(e) => Err(e),
                        Ok(s3) => match s3.release(a.val()) {
                            Err(e) => Err(e),
                            Ok(s4) => s4.release(b.val()),
                        },
                    },
                },
            }
        }
    }

    /// The numeral `n` meets the operator `op` at `addr`. If the operator's
    /// first port holds a numeral, the result goes to whatever its second
    /// port holds and the operator is removed. Otherwise the operator keeps
    /// `n` in its first port and turns to face what that port held.
    #[verifier::opaque]
    pub open spec fn arith(self, op: u32, addr: u64, n: u64) -> Result<NetState, Error> {
        match self.read(Ptr::Aux1(addr)) {
            Err(e) => Err(e),
            Ok(Ptr::Num(m)) => match self.wire(Ptr::Aux2(addr), Ptr::Num(compute(op, n, m))) {
                Err(e) => Err(e),
                Ok(s1) => s1.release(addr),
            },
            Ok(x) => match self.write(Ptr::Aux1(addr), Ptr::Num(n)) {
                Err(e) => Err(e),
                Ok(s1) => s1.link(x, Ptr::Opr(flip(op), addr)),
            },
        }
    }

    /// The net with the definition `name` copied into it and the reference
    /// counter advanced, and the root of the copy.
    #[verifier::opaque]
    pub open spec fn deref(self, book: Map<u64, TemplateState>, name: u64) -> Result<
        (NetState, Ptr),
        Error,
    > {
        if !book.contains_key(name) {
            Err(Error::UndefinedReference(name))
        } else if self.dref == u64::MAX {
            Err(Error::CounterOverflow)
        } else {
            (NetState { dref: (self.dref + 1) as u64, ..self }).instantiate(book[name])
        }
    }

    /// The reference `name` faces `other`: it is replaced by a copy of its
    /// definition, whose root is joined with `other`.
    pub open spec fn unfold(self, book: Map<u64, TemplateState>, name: u64, other: Ptr) -> Result<
        NetState,
        Error,
    > {
        match self.deref(book, name) {
            Err(e) => Err(e),
            Ok((s1, r)) => s1.link(r, other),
        }
    }

    /// An agent without ports meets a two-port agent.
    pub open spec fn absorb(self, n: Ptr, c: Ptr) -> Result<NetState, Error> {
        match (n, c) {
            (Ptr::Num(v), Ptr::Opr(op, addr)) => self.arith(op, addr, v),
            _ => self.erase(n, c.val()),
        }
    }

    /// The rule for the pair `a`, `b`.
    pub open spec fn rule(self, book: Map<u64, TemplateState>, a: Ptr, b: Ptr) -> Result<
        NetState,
        Error,
    > {
        if a.is_var() {
            Err(Error::OutOfRange(a))
        } else if b.is_var() {
            Err(Error::OutOfRange(b))
        } else if expands(a, b) {
            self.unfold(book, a.val(), b)
        } else if expands(b, a) {
            self.unfold(book, b.val(), a)
        } else if a.is_nul() && b.is_nul() {
            Ok(self)
        } else if a.is_nul() {
            self.absorb(a, b)
        } else if b.is_nul() {
            self.absorb(b, a)
        } else if annihilates(a, b) {
            self.annihilate(a.val(), b.val())
        } else {
            self.commute(a, b)
        }
    }

    /// One rewrite of the pair `a`, `b`: the rewrite counter advances by one
    /// and the rule for the pair is applied.
    #[verifier::opaque]
    pub open spec fn step(self, book: Map<u64, TemplateState>, a: Ptr, b: Ptr) -> Result<
        NetState,
        Error,
    > {
        if self.rwts == u64::MAX {
            Err(Error::CounterOverflow)
        } else {
            (NetState { rwts: (self.rwts + 1) as u64, ..self }).rule(book, a, b)
        }
    }
}

/// `n op m`.
pub fn apply_op(op: u32, n: u64, m: u64) -> (r: u64)
    ensures
        r == apply(op, n, m),
{
    if op == OP_ADD {
        n.wrapping_add(m)
    } else if op == OP_SUB {
        n.wrapping_sub(m)
    } else if op == OP_MUL {
        n.wrapping_mul(m)
    } else if op == OP_DIV {
        if m == 0 {
            0
        } else {
            n / m
        }
    } else if op == OP_REM {
        if m == 0 {
            0
        } else {
            n % m
        }
    } else if op == OP_AND {
        n & m
    } else if op == OP_OR {
        n | m
    } else if op == OP_XOR {
        n ^ m
    } else if op == OP_EQ {
        if n == m {
            1
        } else {
            0
        }
    } else if op == OP_LT {
        if n < m {
            1
        } else {
            0
        }
    } else if op == OP_GT {
        if n > m {
            1
        } else {
            0
        }
    } else {
        0
    }
}

/// The opcode that takes its operands the other way round.
pub fn flip_op(op: u32) -> (r: u32)
    ensures
        r == flip(op),
{
    if op < OP_FLIP {
        op + OP_FLIP
    } else {
        op - OP_FLIP
    }
}

/// The result of an operator on the numeral at its principal port and the
/// numeral at its first auxiliary port.
pub fn compute_op(op: u32, n: u64, m: u64) -> (r: u64)
    ensures
        r == compute(op, n, m),
{
    if op >= OP_FLIP {
        apply_op(op - OP_FLIP, m, n)
    } else {
        apply_op(op, n, m)
    }
}

impl Net {
    /// Joins whatever port `p` holds with `v`.
    pub fn wire(&mut self, p: Ptr, v: Ptr) -> (r: Result<(), Error>)
        requires
            old(self)@.wf(),
        ensures
            final(self)@.wf(),
            follows(r, final(self)@, old(self)@.wire(p, v)),
    {
        let x = self.read(p)?;
        self.link(x, v)
    }

    /// Joins whatever port `p` holds with whatever port `q` holds.
    pub fn join(&mut self, p: Ptr, q: Ptr) -> (r: Result<(), Error>)
        requires
            old(self)@.wf(),
        ensures
            final(self)@.wf(),
            follows(r, final(self)@, old(self)@.join(p, q)),
    {
        let x = self.read(p)?;
        let y = self.read(q)?;
        self.link(x, y)
    }

    /// Sets both ports of the live agent at `addr`.
    pub fn fill(&mut self, addr: u64, p1: Ptr, p2: Ptr) -> (r: Result<(), Error>)
        requires
            old(self)@.wf(),
        ensures
            final(self)@.wf(),
            follows(r, final(self)@, old(self)@.fill(addr, p1, p2)),
            r is Err ==> final(self)@ == old(self)@,
    {
        if !self.is_live(addr) {
            return Err(Error::OutOfRange(Ptr::Con(addr)));
        }
        self.nodes[addr as usize] = Node { p1, p2, live: true };
        proof {
            let s = old(self)@;
            let t = self@;
            assert forall|i: int| 0 <= i < t.nodes.len() && !(#[trigger] t.nodes[i]).live implies t.free.contains(
                i as u64,
            ) by {
                assert(!s.nodes[i].live);
            }
        }
        Ok(())
    }

    /// Applies the rule for an agent without ports against the two-port
    /// agent at `addr`.
    pub fn erase(&mut self, n: Ptr, addr: u64) -> (r: Result<(), Error>)
        requires
            old(self)@.wf(),
        ensures
            final(self)@.wf(),
            follows(r, final(self)@, old(self)@.erase(n, addr)),
    {
        reveal(NetState::erase);
        self.wire(Ptr::Aux1(addr), n)?;
        self.wire(Ptr::Aux2(addr), n)?;
        self.free(addr)
    }

    /// Applies the rule for two agents of one kind, at `a` and `b`.
    pub fn annihilate(&mut self, a: u64, b: u64) -> (r: Result<(), Error>)
        requires
            old(self)@.wf(),
        ensures
            final(self)@.wf(),
            follows(r, final(self)@, old(self)@.annihilate(a, b)),
    {
        reveal(NetState::annihilate);
        self.join(Ptr::Aux1(a), Ptr::Aux1(b))?;
        self.join(Ptr::Aux2(a), Ptr::Aux2(b))?;
        self.free(a)?;
        self.free(b)
    }

    /// Takes four free slots.
    pub fn allocate4(&mut self) -> (r: Result<(u64, u64, u64, u64), Error>)
        requires
            old(self)@.wf(),
        ensures
            final(self)@.wf(),
            yields(r, final(self)@, old(self)@.allocate4()),
    {
        let w = self.allocate()?;
        let x = self.allocate()?;
        let y = self.allocate()?;
        let z = self.allocate()?;
        Ok((w, x, y, z))
    }

    /// Applies the rule for two agents of different kinds.
    #[verifier::rlimit(40)]
    pub fn commute(&mut self, a: Ptr, b: Ptr) -> (r: Result<(), Error>)
        requires
            old(self)@.wf(),
        ensures
            final(self)@.wf(),
            follows(r, final(self)@, old(self)@.commute(a, b)),
    {
        reveal(NetState::commute);
        if !self.is_live(a.val()) {
            return Err(Error::OutOfRange(a));
        }
        if !self.is_live(b.val()) {
            return Err(Error::OutOfRange(b));
        }
        let (b1, b2, a1, a2) = self.allocate4()?;
        let ghost s1 = self@;
        self.wire(Ptr::Aux1(a.val()), b.at(b1))?;
        self.wire(Ptr::Aux1(b.val()), a.at(a1))?;
        self.wire(Ptr::Aux2(a.val()), b.at(b2))?;
        self.wire(Ptr::Aux2(b.val()), a.at(a2))?;
        assert(Ok::<NetState, Error>(self@) == s1.pass(a, b, b1, b2, a1, a2));
        let ghost s2 = self@;
        self.fill(b1, Ptr::Aux1(a1), Ptr::Aux1(a2))?;
        self.fill(b2, Ptr::Aux2(a1), Ptr::Aux2(a2))?;
        self.fill(a1, Ptr::Aux1(b1), Ptr::Aux1(b2))?;
        self.fill(a2, Ptr::Aux2(b1), Ptr::Aux2(b2))?;
        assert(Ok::<NetState, Error>(self@) == s2.mesh(b1, b2, a1, a2));
        self.free(a.val())?;
        self.free(b.val())
    }

    /// Applies the rule for the numeral `n` against the operator at `addr`.
    pub fn arith(&mut self, op: u32, addr: u64, n: u64) -> (r: Result<(), Error>)
        requires
            old(self)@.wf(),
        ensures
            final(self)@.wf(),
            follows(r, final(self)@, old(self)@.arith(op, addr, n)),
    {
        reveal(NetState::arith);
        let x = self.read(Ptr::Aux1(addr))?;
        match x {
            Ptr::Num(m) => {
                self.wire(Ptr::Aux2(addr), Ptr::Num(compute_op(op, n, m)))?;
                self.free(addr)
            },
            _ => {
                self.write(Ptr::Aux1(addr), Ptr::Num(n))?;
                self.link(x, Ptr::Opr(flip_op(op), addr))
            },
        }
    }

    /// Copies the definition `name` into the net and counts the expansion.
    pub fn deref(&mut self, book: &Book, name: u64) -> (r: Result<Ptr, Error>)
        requires
            old(self)@.wf(),
            book.wf(),
        ensures
            final(self)@.wf(),
            yields(r, final(self)@, old(self)@.deref(book@, name)),
    {
        reveal(NetState::deref);
        match book.lookup(name) {
            None => Err(Error::UndefinedReference(name)),
            Some(t) => {
                if self.dref == u64::MAX {
                    return Err(Error::CounterOverflow);
                }
                self.dref = self.dref + 1;
                self.instantiate(t)
            },
        }
    }

    /// Rewrites the active pair `a`, `b` once.
    ///
    /// On a sound net whose book is sound, and for a pair of agents that
    /// nothing else points to, the rewrite succeeds exactly if the net has
    /// what it needs, and the net is sound afterwards.
    ///
    /// A reference is first replaced by a copy of its definition, unless it
    /// faces an eraser; the pair is then pending again with the root of the
    /// copy in its place. Two agents without ports vanish. An agent without
    /// ports erases a two-port agent, except that a numeral feeds an
    /// operator. Two constructors, or two duplicators of one color, cancel
    /// out. Any other two agents pass through each other.
    #[verifier::rlimit(40)]
    pub fn interact(&mut self, book: &Book, a: Ptr, b: Ptr) -> (r: Result<(), Error>)
        requires
            old(self)@.wf(),
            book.wf(),
        ensures
            final(self)@.wf(),
            follows(r, final(self)@, old(self)@.step(book@, a, b)),
            sound_but(old(self)@, Set::empty(), hand(a, b)) && pair_ok(old(self)@, a, b)
                && book.sound() ==> {
                &&& r is Ok <==> enough(old(self)@, book@, a, b)
                &&& r is Ok ==> sound(final(self)@)
                &&& r matches Err(e) ==> lack(e)
            },
    {
        proof {
            if sound_but(self@, Set::empty(), hand(a, b)) && pair_ok(self@, a, b) && book.sound() {
                lemma_step_sound(self@, book@, a, b);
            }
        }
        reveal(NetState::step);
        if self.rwts == u64::MAX {
            return Err(Error::CounterOverflow);
        }
        self.rwts = self.rwts + 1;
        if a.is_var() {
            return Err(Error::OutOfRange(a));
        }
        if b.is_var() {
            return Err(Error::OutOfRange(b));
        }
        match (a, b) {
            (Ptr::Ref(name), Ptr::Era) => Ok(()),
            (Ptr::Era, Ptr::Ref(name)) => Ok(()),
            (Ptr::Ref(name), _) => {
                let root = self.deref(book, name)?;
                self.link(root, b)
            },
            (_, Ptr::Ref(name)) => {
                let root = self.deref(book, name)?;
                self.link(root, a)
            },
            (Ptr::Num(n), Ptr::Opr(op, addr)) => self.arith(op, addr, n),
            (Ptr::Opr(op, addr), Ptr::Num(n)) => self.arith(op, addr, n),
            _ => {
                if a.is_nul() {
                    if b.is_nul() {
                        Ok(())
                    } else {
                        self.erase(a, b.val())
                    }
                } else if b.is_nul() {
                    self.erase(b, a.val())
                } else {
                    let same = match (a, b) {
                        (Ptr::Con(_), Ptr::Con(_)) => true,
                        (Ptr::Dup(c, _), Ptr::Dup(d, _)) => c == d,
                        _ => false,
                    };
                    if same {
                        self.annihilate(a.val(), b.val())
                    } else {
                        self.commute(a, b)
                    }
                }
            },
        }
    }
}

} // verus!
