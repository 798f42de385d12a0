//! The scalar source abstraction: the network's only source of randomness.
//!
//! Construction consumes a stateful source of binary32 values (as bit
//! patterns), calling it exactly once per scalar needed, in a fixed order.
//! The trait models a source by the sequence of values it will ever
//! produce (`at`), a count of values produced so far (`taken`), and a
//! supply guarantee (`ready`), so that construction is a deterministic
//! function of the source's value stream.

use vstd::prelude::*;

verus! {

/// A stateful producer of binary32 bit patterns, consumed one value at a
/// time in a fixed order.
pub trait ScalarSource: Sized {
    /// The `i`-th value this source will ever produce, counted from its
    /// creation.
    spec fn at(&self, i: nat) -> u32;

    /// How many values the source has produced so far.
    spec fn taken(&self) -> nat;

    /// Whether the source can still produce `n` more values.
    spec fn ready(&self, n: nat) -> bool;

    /// A source that can produce `n` more values can produce any smaller
    /// number of them.
    proof fn ready_weaken(&self, m: nat, n: nat)
        requires
            m <= n,
            self.ready(n),
        ensures
            self.ready(m),
    ;

    /// Produces the next value of the stream.
    fn next_value(&mut self) -> (r: u32)
        requires
            old(self).ready(1),
        ensures
            r == old(self).at(old(self).taken()),
            final(self).taken() == old(self).taken() + 1,
            forall|i: nat| final(self).at(i) == old(self).at(i),
            forall|n: nat| old(self).ready(n + 1) ==> final(self).ready(n),
    ;
}

/// A source that produces the same value forever.
pub struct ConstSource {
    /// The value produced on every call.
    pub value: u32,
    /// How many values have been produced.
    pub produced: Ghost<nat>,
}

impl ConstSource {
    /// Makes a source that produces `value` forever.
    pub fn new(value: u32) -> (s: ConstSource)
        ensures
            s.value == value,
            s.taken() == 0,
            forall|i: nat| s.at(i) == value,
            forall|n: nat| s.ready(n),
    {
        ConstSource { value, produced: Ghost(0) }
    }
}

impl ScalarSource for ConstSource {
    open spec fn at(&self, i: nat) -> u32 {
        self.value
    }

    open spec fn taken(&self) -> nat {
        self.produced@
    }

    open spec fn ready(&self, n: nat) -> bool {
        true
    }

    proof fn ready_weaken(&self, m: nat, n: nat) {
    }

    fn next_value(&mut self) -> (r: u32) {
        self.produced = Ghost(self.produced@ + 1);
        self.value
    }
}

/// A source that produces a fixed list of values, front to back.
pub struct SeqSource {
    /// The values the source produces, in order.
    pub values: Vec<u32>,
    /// How many values have been produced.
    pub pos: usize,
}

impl SeqSource {
    /// Makes a source that produces exactly the given values, in order.
    pub fn new(values: Vec<u32>) -> (s: SeqSource)
        ensures
            s.values@ == values@,
            s.taken() == 0,
            forall|i: nat| i < values@.len() ==> s.at(i) == values@[i as int],
            forall|n: nat| n <= values@.len() ==> s.ready(n),
    {
        SeqSource { values, pos: 0 }
    }
}

impl ScalarSource for SeqSource {
    open spec fn at(&self, i: nat) -> u32 {
        if i < self.values@.len() {
            self.values@[i as int]
        } else {
            0
        }
    }

    open spec fn taken(&self) -> nat {
        self.pos as nat
    }

    open spec fn ready(&self, n: nat) -> bool {
        self.pos + n <= self.values@.len()
    }

    proof fn ready_weaken(&self, m: nat, n: nat) {
    }

    fn next_value(&mut self) -> (r: u32) {
        let r = self.values[self.pos];
        let n: usize = self.values.len();
        assert(self.pos < n);
        self.pos = self.pos + 1;
        r
    }
}

} // verus!
