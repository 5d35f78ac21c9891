//! The drivers: booting a net, expanding references below a port, reducing
//! the pending pairs, and normalizing.

use vstd::prelude::*;
use crate::book::{Book, TemplateState};
use crate::error::Error;
use crate::laws::{lemma_expand_keeps, lemma_step_counters};
use crate::net::{follows, Net, NetState};
use crate::ptr::Ptr;
use crate::sound::{
    lack, lemma_boot_sound, lemma_expand_safe, lemma_expand_sound, lemma_normal_sound,
    lemma_reduce_sound, sound,
};

verus! {

impl NetState {
    /// The net started at the definition `name`: the root holds a reference
    /// to it and both counters are zero.
    pub open spec fn boot(self, name: u64) -> NetState {
        NetState { root: Ptr::Ref(name), rwts: 0, dref: 0, ..self }
    }

    /// The net without its last pending pair.
    pub open spec fn popped(self) -> NetState {
        NetState { acts: self.acts.drop_last(), ..self }
    }

    /// Rewrites pending pairs, last one first, until none is left; at most
    /// `fuel` of them.
    pub open spec fn reduce_run(self, book: Map<u64, TemplateState>, fuel: nat) -> Result<
        NetState,
        Error,
    >
        decreases fuel,
    {
        if self.acts.len() == 0 {
            Ok(self)
        } else if fuel == 0 {
            Err(Error::CounterOverflow)
        } else {
            match self.popped().step(book, self.acts.last().0, self.acts.last().1) {
                Err(e) => Err(e),
                Ok(s) => s.reduce_run(book, (fuel - 1) as nat),
            }
        }
    }

    /// Rewrites pending pairs until none is left. The rewrite counter bounds
    /// the number of rewrites.
    pub open spec fn reduce(self, book: Map<u64, TemplateState>) -> Result<NetState, Error> {
        self.reduce_run(book, (u64::MAX - self.rwts) as nat)
    }

    /// Walks the ports in `stack`, last one first. Below a two-port agent
    /// both its ports are walked, the first one first; a reference is
    /// replaced by a copy of its definition; anything else is left alone.
    /// At most `fuel` two-port agents are entered.
    pub open spec fn expand_run(
        self,
        book: Map<u64, TemplateState>,
        stack: Seq<Ptr>,
        fuel: nat,
    ) -> Result<NetState, Error>
        decreases fuel, stack.len(),
    {
        if stack.len() == 0 {
            Ok(self)
        } else {
            let dir = stack.last();
            let rest = stack.drop_last();
            match self.read(dir) {
                Err(e) => Err(e),
                Ok(Ptr::Ref(name)) => match self.deref(book, name) {
                    Err(e) => Err(e),
                    Ok((s1, r)) => match s1.link(dir, r) {
                        Err(e) => Err(e),
                        Ok(s2) => s2.expand_run(book, rest, fuel),
                    },
                },
                Ok(p) => if p.is_ctr() {
                    if fuel == 0 {
                        Err(Error::Cyclic)
                    } else {
                        self.expand_run(
                            book,
                            rest.push(Ptr::Aux2(p.val())).push(Ptr::Aux1(p.val())),
                            (fuel - 1) as nat,
                        )
                    }
                } else {
                    self.expand_run(book, rest, fuel)
                },
            }
        }
    }

    /// Replaces the references found below the port `dir` by copies of
    /// their definitions. The copies themselves are not walked. A tree of
    /// agents has no more agents than the arena has slots; more than that
    /// means that the agents below `dir` form a cycle.
    pub open spec fn expand(self, book: Map<u64, TemplateState>, dir: Ptr) -> Result<
        NetState,
        Error,
    > {
        self.expand_run(book, seq![dir], self.nodes.len())
    }

    /// Whether nothing is left to do: no pair is pending and no reference
    /// is found below the root.
    pub open spec fn is_normal(self, book: Map<u64, TemplateState>) -> bool {
        self.acts.len() == 0 && self.expand(book, Ptr::Root) == Ok::<NetState, Error>(self)
    }

    /// Expands below the root and reduces, in turn, until an expansion
    /// finds no reference and leaves no pair pending; at most `fuel` rounds.
    pub open spec fn normal_run(self, book: Map<u64, TemplateState>, fuel: nat) -> Result<
        NetState,
        Error,
    >
        decreases fuel,
    {
        match self.expand(book, Ptr::Root) {
            Err(e) => Err(e),
            Ok(s1) => if s1.acts.len() == 0 && s1.dref == self.dref {
                Ok(s1)
            } else if fuel == 0 {
                Err(Error::CounterOverflow)
            } else {
                match s1.reduce(book) {
                    Err(e) => Err(e),
                    Ok(s2) => s2.normal_run(book, (fuel - 1) as nat),
                }
            },
        }
    }

    /// The normal form of the net.
    pub open spec fn normal(self, book: Map<u64, TemplateState>) -> Result<NetState, Error> {
        self.normal_run(book, u64::MAX as nat)
    }
}

impl Net {
    /// Starts the net at the definition `name`: the root is made a
    /// reference to it, and both counters are set to zero.
    pub fn boot(&mut self, name: u64)
        ensures
            final(self)@ == old(self)@.boot(name),
            sound(old(self)@) && !old(self)@.root.is_var() ==> sound(final(self)@),
    {
        proof {
            if sound(self@) && !self@.root.is_var() {
                lemma_boot_sound(self@, name);
            }
        }
        self.root = Ptr::Ref(name);
        self.rwts = 0;
        self.dref = 0;
    }

    /// Replaces the references found below the port `dir` by copies of
    /// their definitions, so that their active pairs become pending.
    ///
    /// On a sound net whose book is sound the net stays sound, and the
    /// walk is stopped only for want of room, of a definition or of room in
    /// a counter; below the root it cannot find a cycle.
    #[verifier::rlimit(40)]
    pub fn expand(&mut self, book: &Book, dir: Ptr) -> (r: Result<(), Error>)
        requires
            old(self)@.wf(),
            book.wf(),
        ensures
            final(self)@.wf(),
            follows(r, final(self)@, old(self)@.expand(book@, dir)),
            sound(old(self)@) && book.sound() && old(self)@.is_port(dir) ==> {
                &&& r is Ok ==> sound(final(self)@)
                &&& r matches Err(e) ==> lack(e) || (e is Cyclic && dir != Ptr::Root)
            },
    {
        proof {
            if sound(self@) && book.sound() && self@.is_port(dir) {
                assert(seq![dir][0] == dir);
                lemma_expand_sound(self@, book@, seq![dir], self@.nodes.len());
                if dir == Ptr::Root {
                    lemma_expand_safe(self@, book@);
                }
            }
        }
        let mut stack: Vec<Ptr> = Vec::new();
        stack.push(dir);
        let mut fuel: usize = self.nodes.len();
        let ghost goal = self@.expand(book@, dir);
        assert(stack@ =~= seq![dir]);
        while stack.len() > 0
            invariant
                self@.wf(),
                book.wf(),
                goal == old(self)@.expand(book@, dir),
                sound(old(self)@) && book.sound() && old(self)@.is_port(dir) ==> (goal is Ok
                    ==> sound(goal.unwrap())) && (goal matches Err(e) ==> lack(e) || (e is Cyclic
                    && dir != Ptr::Root)),
                self@.expand_run(book@, stack@, fuel as nat) == goal,
            decreases fuel, stack@.len(),
        {
            let ghost before = stack@;
            let dir = stack.pop().unwrap();
            assert(stack@ =~= before.drop_last());
            let p = self.read(dir)?;
            match p {
                Ptr::Ref(name) => {
                    let root = self.deref(book, name)?;
                    self.link(dir, root)?;
                },
                _ => {
                    if p.is_ctr() {
                        if fuel == 0 {
                            return Err(Error::Cyclic);
                        }
                        fuel = fuel - 1;
                        stack.push(Ptr::Aux2(p.val()));
                        stack.push(Ptr::Aux1(p.val()));
                    }
                },
            }
        }
        Ok(())
    }

    /// Rewrites the pending active pairs until none is left.
    ///
    /// On a sound net whose book is sound the net stays sound, and the
    /// reduction is stopped only for want of room, of a definition or of
    /// room in a counter.
    #[verifier::rlimit(40)]
    pub fn reduce(&mut self, book: &Book) -> (r: Result<(), Error>)
        requires
            old(self)@.wf(),
            book.wf(),
        ensures
            final(self)@.wf(),
            follows(r, final(self)@, old(self)@.reduce(book@)),
            r is Ok ==> final(self)@.acts.len() == 0,
            sound(old(self)@) && book.sound() ==> {
                &&& r is Ok ==> sound(final(self)@)
                &&& r matches Err(e) ==> lack(e)
            },
    {
        proof {
            if sound(self@) && book.sound() {
                lemma_reduce_sound(self@, book@, (u64::MAX - self@.rwts) as nat);
            }
        }
        let ghost goal = self@.reduce(book@);
        while self.acts.len() > 0
            invariant
                self@.wf(),
                book.wf(),
                goal == old(self)@.reduce(book@),
                sound(old(self)@) && book.sound() ==> (goal is Ok ==> sound(goal.unwrap())) && (goal
                    matches Err(e) ==> lack(e)),
                self@.reduce(book@) == goal,
            decreases u64::MAX - self.rwts,
        {
            let ghost s = self@;
            let (a, b) = self.acts.pop().unwrap();
            assert(self@ == s.popped());
            proof {
                if s.popped().step(book@, a, b) is Ok {
                    lemma_step_counters(s.popped(), book@, a, b);
                } else if s.rwts == u64::MAX {
                    reveal(NetState::step);
                }
            }
            self.interact(book, a, b)?;
        }
        Ok(())
    }

    /// Brings the net to its normal form: expands below the root and
    /// reduces, in turn, until an expansion finds no reference and leaves no
    /// pair pending.
    ///
    /// On a sound net whose book is sound the net stays sound, and the
    /// normalization is stopped only for want of room, of a definition or
    /// of room in a counter.
    #[verifier::rlimit(40)]
    pub fn normal(&mut self, book: &Book) -> (r: Result<(), Error>)
        requires
            old(self)@.wf(),
            book.wf(),
        ensures
            final(self)@.wf(),
            follows(r, final(self)@, old(self)@.normal(book@)),
            r is Ok ==> final(self)@.is_normal(book@),
            sound(old(self)@) && book.sound() ==> {
                &&& r is Ok ==> sound(final(self)@)
                &&& r matches Err(e) ==> lack(e)
            },
    {
        proof {
            if sound(self@) && book.sound() {
                lemma_normal_sound(self@, book@, u64::MAX as nat);
            }
        }
        let ghost goal = self@.normal(book@);
        let mut fuel: u64 = u64::MAX;
        loop
            invariant
                self@.wf(),
                book.wf(),
                goal == old(self)@.normal(book@),
                sound(old(self)@) && book.sound() ==> (goal is Ok ==> sound(goal.unwrap())) && (goal
                    matches Err(e) ==> lack(e)),
                self@.normal_run(book@, fuel as nat) == goal,
            decreases fuel,
        {
            let ghost s = self@;
            let before = self.dref;
            self.expand(book, Ptr::Root)?;
            if self.acts.len() == 0 && self.dref == before {
                proof {
                    lemma_expand_keeps(s, book@, seq![Ptr::Root], s.nodes.len());
                }
                return Ok(());
            }
            if fuel == 0 {
                return Err(Error::CounterOverflow);
            }
            self.reduce(book)?;
            fuel = fuel - 1;
        }
    }
}

} // verus!
