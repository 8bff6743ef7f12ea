//! A round dial that counts the clicks at which it points at zero.
use vstd::arithmetic::div_mod::lemma_fundamental_div_mod_converse;
use vstd::prelude::*;

verus! {

/// Number of graduations on the dial.
pub const MAX_DIAL: usize = 100;

/// Clicks at which a dial turned `n` clicks to the right from `pos` points
/// at zero: every hundredth click from the start.
pub open spec fn zeros_turning_right(pos: int, n: int) -> int {
    (pos + n) / MAX_DIAL as int
}

/// Clicks at which a dial turned `n` clicks to the left from `pos` points at
/// zero: the first after `(100 - pos) % 100` clicks (a hundred from zero
/// itself), then every hundredth.
pub open spec fn zeros_turning_left(pos: int, n: int) -> int {
    ((MAX_DIAL as int - pos) % MAX_DIAL as int + n) / MAX_DIAL as int
}

/// A round dial graduated from 0 to 99 clock-wise.
#[derive(Debug, Clone, Copy, PartialEq, Eq, Structural)]
pub struct Dial {
    pos: usize,
}

impl Dial {
    /// The graduation that the dial points at.
    pub closed spec fn spec_position(&self) -> int {
        self.pos as int
    }

    pub open spec fn wf(&self) -> bool {
        0 <= self.spec_position() < MAX_DIAL
    }

    pub fn new(pos: usize) -> (r: Dial)
        requires
            pos < MAX_DIAL,
        ensures
            r.wf(),
            r.spec_position() == pos,
    {
        Dial { pos }
    }

    pub fn position(&self) -> (r: usize)
        ensures
            r == self.spec_position(),
    {
        self.pos
    }

    /// Turns dial `n` clicks to the right and returns number of times dial
    /// pointed at zero while being turned.
    pub fn turn_right(&mut self, n: usize) -> (r: usize)
        requires
            old(self).wf(),
        ensures
            final(self).wf(),
            final(self).spec_position() == (old(self).spec_position() + n) % MAX_DIAL as int,
            r == zeros_turning_right(old(self).spec_position(), n as int),
    {
        let ghost p = self.pos as int;
        let turns = n / MAX_DIAL;
        let rest = n % MAX_DIAL;
        let sum = self.pos + rest;
        if sum >= MAX_DIAL {
            self.pos = sum - MAX_DIAL;
            proof {
                lemma_fundamental_div_mod_converse(p + n, 100, turns + 1, self.pos as int);
            }
            turns + 1
        } else {
            self.pos = sum;
            proof {
                lemma_fundamental_div_mod_converse(p + n, 100, turns as int, self.pos as int);
            }
            turns
        }
    }

    /// Turns dial `n` clicks to the left and returns number of times dial
    /// pointed at zero while being turned.
    pub fn turn_left(&mut self, n: usize) -> (r: usize)
        requires
            old(self).wf(),
        ensures
            final(self).wf(),
            final(self).spec_position() == (old(self).spec_position() - n) % MAX_DIAL as int,
            r == zeros_turning_left(old(self).spec_position(), n as int),
    {
        let ghost p = self.pos as int;
        let turns = n / MAX_DIAL;
        let rest = n % MAX_DIAL;
        // A zero is passed on the last, partial turn when the dial leaves a
        // graduation other than zero and goes at least back to zero.
        let extra: usize = if self.pos > 0 && rest >= self.pos { 1 } else { 0 };
        if rest <= self.pos {
            self.pos = self.pos - rest;
            proof {
                lemma_fundamental_div_mod_converse(p - n, 100, -turns, self.pos as int);
            }
        } else {
            self.pos = self.pos + MAX_DIAL - rest;
            proof {
                lemma_fundamental_div_mod_converse(p - n, 100, -turns - 1, self.pos as int);
            }
        }
        proof {
            if p == 0 {
                lemma_fundamental_div_mod_converse(100, 100, 1, 0);
                lemma_fundamental_div_mod_converse(n as int, 100, turns as int, rest as int);
            } else {
                lemma_fundamental_div_mod_converse(100 - p, 100, 0, 100 - p);
                lemma_fundamental_div_mod_converse(
                    100 - p + n,
                    100,
                    turns + extra,
                    100 - p + rest - 100 * extra,
                );
            }
        }
        turns + extra
    }
}

} // verus!
