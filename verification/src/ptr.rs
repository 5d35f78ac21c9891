//! Pointers: what sits at the other end of a wire.

use vstd::prelude::*;

verus! {

/// The kind of thing a pointer designates, without its payload.
#[derive(Clone, Copy, Debug, PartialEq, Eq, Structural)]
pub enum Tag {
    /// The root port of the whole net.
    Vrr,
    /// Auxiliary port 1 of an agent.
    Vr1,
    /// Auxiliary port 2 of an agent.
    Vr2,
    /// An eraser.
    Era,
    /// A reference to a named definition.
    Ref,
    /// A numeral.
    Num,
    /// The principal port of a constructor.
    Con,
    /// The principal port of a duplicator.
    Dup,
    /// The principal port of an operator.
    Opr,
}

/// A tagged pointer.
///
/// `Root`, `Aux1` and `Aux2` designate ports (the ends of plain wires).
/// `Era`, `Ref` and `Num` are agents without auxiliary ports and live inside
/// the pointer itself. `Con`, `Dup` and `Opr` designate the principal port of
/// the two-port agent stored at the given arena address; `Dup` carries its
/// color and `Opr` its opcode.
#[derive(Clone, Copy, Debug, PartialEq, Eq, Structural)]
pub enum Ptr {
    Root,
    Aux1(u64),
    Aux2(u64),
    Era,
    Ref(u64),
    Num(u64),
    Con(u64),
    Dup(u32, u64),
    Opr(u32, u64),
}

impl Ptr {
    /// The kind of this pointer.
    pub open spec fn spec_tag(self) -> Tag {
        match self {
            Ptr::Root => Tag::Vrr,
            Ptr::Aux1(_) => Tag::Vr1,
            Ptr::Aux2(_) => Tag::Vr2,
            Ptr::Era => Tag::Era,
            Ptr::Ref(_) => Tag::Ref,
            Ptr::Num(_) => Tag::Num,
            Ptr::Con(_) => Tag::Con,
            Ptr::Dup(_, _) => Tag::Dup,
            Ptr::Opr(_, _) => Tag::Opr,
        }
    }

    /// The payload: an arena address, a name or a literal; zero where the
    /// pointer has none.
    pub open spec fn spec_val(self) -> u64 {
        match self {
            Ptr::Root => 0,
            Ptr::Aux1(a) => a,
            Ptr::Aux2(a) => a,
            Ptr::Era => 0,
            Ptr::Ref(n) => n,
            Ptr::Num(v) => v,
            Ptr::Con(a) => a,
            Ptr::Dup(_, a) => a,
            Ptr::Opr(_, a) => a,
        }
    }

    /// The label: zero for a constructor, the color of a duplicator, the
    /// opcode of an operator; zero for everything else.
    pub open spec fn spec_lab(self) -> u32 {
        match self {
            Ptr::Dup(c, _) => c,
            Ptr::Opr(o, _) => o,
            _ => 0,
        }
    }

    /// Whether the pointer designates a port rather than an agent.
    pub open spec fn spec_is_var(self) -> bool {
        self is Root || self is Aux1 || self is Aux2
    }

    /// Whether the pointer designates an agent with two auxiliary ports.
    pub open spec fn spec_is_ctr(self) -> bool {
        self is Con || self is Dup || self is Opr
    }

    /// Whether the pointer designates an agent without auxiliary ports.
    pub open spec fn spec_is_nul(self) -> bool {
        self is Era || self is Ref || self is Num
    }

    /// The same agent kind and label at another address.
    pub open spec fn spec_at(self, addr: u64) -> Ptr {
        match self {
            Ptr::Aux1(_) => Ptr::Aux1(addr),
            Ptr::Aux2(_) => Ptr::Aux2(addr),
            Ptr::Con(_) => Ptr::Con(addr),
            Ptr::Dup(c, _) => Ptr::Dup(c, addr),
            Ptr::Opr(o, _) => Ptr::Opr(o, addr),
            _ => self,
        }
    }

    /// Builds a pointer from a kind and a payload, with label zero.
    pub fn new(tag: Tag, val: u64) -> (p: Ptr)
        ensures
            p.spec_tag() == tag,
            p.spec_lab() == 0,
            p.spec_val() == (if tag == Tag::Vrr || tag == Tag::Era { 0 } else { val }),
    {
        match tag {
            Tag::Vrr => Ptr::Root,
            Tag::Vr1 => Ptr::Aux1(val),
            Tag::Vr2 => Ptr::Aux2(val),
            Tag::Era => Ptr::Era,
            Tag::Ref => Ptr::Ref(val),
            Tag::Num => Ptr::Num(val),
            Tag::Con => Ptr::Con(val),
            Tag::Dup => Ptr::Dup(0, val),
            Tag::Opr => Ptr::Opr(0, val),
        }
    }

    /// The principal port of a two-port agent: a constructor for label zero,
    /// a duplicator of that color otherwise.
    pub fn node(lab: u32, addr: u64) -> (p: Ptr)
        ensures
            p == (if lab == 0 { Ptr::Con(addr) } else { Ptr::Dup(lab, addr) }),
    {
        if lab == 0 {
            Ptr::Con(addr)
        } else {
            Ptr::Dup(lab, addr)
        }
    }

    #[verifier::when_used_as_spec(spec_tag)]
    pub fn tag(self) -> (t: Tag)
        ensures
            t == self.spec_tag(),
    {
        match self {
            Ptr::Root => Tag::Vrr,
            Ptr::Aux1(_) => Tag::Vr1,
            Ptr::Aux2(_) => Tag::Vr2,
            Ptr::Era => Tag::Era,
            Ptr::Ref(_) => Tag::Ref,
            Ptr::Num(_) => Tag::Num,
            Ptr::Con(_) => Tag::Con,
            Ptr::Dup(_, _) => Tag::Dup,
            Ptr::Opr(_, _) => Tag::Opr,
        }
    }

    #[verifier::when_used_as_spec(spec_val)]
    pub fn val(self) -> (v: u64)
        ensures
            v == self.spec_val(),
    {
        match self {
            Ptr::Root => 0,
            Ptr::Aux1(a) => a,
            Ptr::Aux2(a) => a,
            Ptr::Era => 0,
            Ptr::Ref(n) => n,
            Ptr::Num(v) => v,
            Ptr::Con(a) => a,
            Ptr::Dup(_, a) => a,
            Ptr::Opr(_, a) => a,
        }
    }

    #[verifier::when_used_as_spec(spec_lab)]
    pub fn lab(self) -> (l: u32)
        ensures
            l == self.spec_lab(),
    {
        match self {
            Ptr::Dup(c, _) => c,
            Ptr::Opr(o, _) => o,
            _ => 0,
        }
    }

    #[verifier::when_used_as_spec(spec_is_var)]
    pub fn is_var(self) -> (b: bool)
        ensures
            b == self.spec_is_var(),
    {
        match self {
            Ptr::Root => true,
            Ptr::Aux1(_) => true,
            Ptr::Aux2(_) => true,
            _ => false,
        }
    }

    #[verifier::when_used_as_spec(spec_is_ctr)]
    pub fn is_ctr(self) -> (b: bool)
        ensures
            b == self.spec_is_ctr(),
    {
        match self {
            Ptr::Con(_) => true,
            Ptr::Dup(_, _) => true,
            Ptr::Opr(_, _) => true,
            _ => false,
        }
    }

    #[verifier::when_used_as_spec(spec_is_nul)]
    pub fn is_nul(self) -> (b: bool)
        ensures
            b == self.spec_is_nul(),
    {
        match self {
            Ptr::Era => true,
            Ptr::Ref(_) => true,
            Ptr::Num(_) => true,
            _ => false,
        }
    }

    /// Whether this is an eraser.
    pub fn is_era(self) -> (b: bool)
        ensures
            b == (self == Ptr::Era),
    {
        match self {
            Ptr::Era => true,
            _ => false,
        }
    }

    /// Whether this is a reference.
    pub fn is_ref(self) -> (b: bool)
        ensures
            b == (self is Ref),
    {
        match self {
            Ptr::Ref(_) => true,
            _ => false,
        }
    }

    /// Whether this is a numeral.
    pub fn is_num(self) -> (b: bool)
        ensures
            b == (self is Num),
    {
        match self {
            Ptr::Num(_) => true,
            _ => false,
        }
    }

    #[verifier::when_used_as_spec(spec_at)]
    pub fn at(self, addr: u64) -> (p: Ptr)
        ensures
            p == self.spec_at(addr),
    {
        match self {
            Ptr::Aux1(_) => Ptr::Aux1(addr),
            Ptr::Aux2(_) => Ptr::Aux2(addr),
            Ptr::Con(_) => Ptr::Con(addr),
            Ptr::Dup(c, _) => Ptr::Dup(c, addr),
            Ptr::Opr(o, _) => Ptr::Opr(o, addr),
            _ => self,
        }
    }
}

} // verus!
