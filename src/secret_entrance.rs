//! Rotation instructions for a dial, one per line, and a simple dial that
//! only tells where it points.
use crate::dial::MAX_DIAL;
use vstd::arithmetic::div_mod::lemma_fundamental_div_mod_converse;
use crate::text::{decimal_usize, find_byte, index_of, parse_decimal, pieces, trim, trim_spaces};
use vstd::prelude::*;

verus! {

/// Byte that ends a line.
pub const NEWLINE: u8 = 0x0a;

/// Byte that starts a rotation to the left.
pub const LEFT: u8 = 0x4c;

/// Byte that starts a rotation to the right.
pub const RIGHT: u8 = 0x52;

/// Byte that may stand before a number of steps.
pub const PLUS: u8 = 0x2b;

#[derive(Debug, Clone, Copy, PartialEq, Eq, Structural)]
pub enum Direction {
    Left,
    Right,
}

#[derive(Debug, Clone, Copy, PartialEq, Eq, Structural)]
pub struct Rotation {
    pub direction: Direction,
    pub steps: usize,
}

/// Why a text is not a list of rotations; `line` counts from 1.
#[derive(Debug, Clone, Copy, PartialEq, Eq, Structural)]
pub enum InstructionError {
    /// The line does not start with a direction byte.
    InvalidDirection { line: usize },
    /// What follows the direction is not a number of steps that fits a `usize`.
    InvalidStep { line: usize },
}

/// The number of steps that `s` writes: decimal digits, optionally after a
/// plus sign.
pub open spec fn steps_value(s: Seq<u8>) -> Option<usize> {
    if s.len() > 0 && s[0] == PLUS {
        decimal_usize(s.drop_first())
    } else {
        decimal_usize(s)
    }
}

/// What line number `k` holding `l` says: nothing when it is blank once
/// trimmed, else a direction byte and a number of steps.
pub open spec fn line_rotation(l: Seq<u8>, k: int) -> Result<Option<Rotation>, InstructionError> {
    let t = trim(l);
    if t.len() == 0 {
        Ok(None)
    } else if t[0] != LEFT && t[0] != RIGHT {
        Err(InstructionError::InvalidDirection { line: k as usize })
    } else {
        match steps_value(t.drop_first()) {
            None => Err(InstructionError::InvalidStep { line: k as usize }),
            Some(n) => Ok(
                Some(
                    Rotation {
                        direction: if t[0] == LEFT {
                            Direction::Left
                        } else {
                            Direction::Right
                        },
                        steps: n,
                    },
                ),
            ),
        }
    }
}

/// The rotations of lines `ls`, the first numbered `k`, or the error of the
/// first line that has one.
pub open spec fn lines_rotations(ls: Seq<Seq<u8>>, k: int) -> Result<
    Seq<Rotation>,
    InstructionError,
>
    decreases ls.len(),
{
    if ls.len() == 0 {
        Ok(seq![])
    } else {
        match line_rotation(ls[0], k) {
            Err(e) => Err(e),
            Ok(None) => lines_rotations(ls.drop_first(), k + 1),
            Ok(Some(r)) => match lines_rotations(ls.drop_first(), k + 1) {
                Ok(rs) => Ok(seq![r] + rs),
                Err(e) => Err(e),
            },
        }
    }
}

/// `done` followed by the rotations of `rest`, or the error of `rest`.
pub open spec fn after(done: Seq<Rotation>, rest: Result<Seq<Rotation>, InstructionError>) -> Result<
    Seq<Rotation>,
    InstructionError,
> {
    match rest {
        Ok(rs) => Ok(done + rs),
        Err(e) => Err(e),
    }
}

/// The rotations that text `s` lists, one per line.
pub open spec fn text_rotations(s: Seq<u8>) -> Result<Seq<Rotation>, InstructionError> {
    lines_rotations(pieces(s, NEWLINE), 1)
}

pub open spec fn rotations_view(r: Result<Vec<Rotation>, InstructionError>) -> Result<
    Seq<Rotation>,
    InstructionError,
> {
    match r {
        Ok(v) => Ok(v@),
        Err(e) => Err(e),
    }
}

/// Reads a number of steps: decimal digits, optionally after a plus sign.
fn parse_steps(s: &[u8]) -> (r: Option<usize>)
    ensures
        r == steps_value(s@),
{
    if s.len() > 0 && s[0] == PLUS {
        let digits = &s[1..s.len()];
        assert(digits@ =~= s@.drop_first());
        parse_decimal(digits)
    } else {
        parse_decimal(s)
    }
}

/// Reads line number `line_number`, which holds `line`.
fn parse_line(line: &[u8], line_number: usize) -> (r: Result<Option<Rotation>, InstructionError>)
    ensures
        r == line_rotation(line@, line_number as int),
{
    let t = trim_spaces(line);
    if t.len() == 0 {
        return Ok(None);
    }
    let direction = if t[0] == LEFT {
        Direction::Left
    } else if t[0] == RIGHT {
        Direction::Right
    } else {
        return Err(InstructionError::InvalidDirection { line: line_number });
    };
    let rest = &t[1..t.len()];
    assert(rest@ =~= t@.drop_first());
    match parse_steps(rest) {
        Some(steps) => Ok(Some(Rotation { direction, steps })),
        None => Err(InstructionError::InvalidStep { line: line_number }),
    }
}

/// Reads the rotations that `input` lists, one per line. Blank lines are
/// skipped; spaces around a rotation are ignored.
pub fn read_instructions(input: &[u8]) -> (r: Result<Vec<Rotation>, InstructionError>)
    ensures
        rotations_view(r) == text_rotations(input@),
{
    let ghost s = input@;
    let n = input.len();
    let mut instructions: Vec<Rotation> = Vec::new();
    let mut pos: usize = 0;
    let mut line_number: usize = 1;
    assert(s.subrange(0, n as int) =~= s);
    while pos < n
        invariant
            s == input@,
            n == s.len(),
            pos <= n,
            1 <= line_number <= pos + 1,
            after(
                instructions@,
                lines_rotations(pieces(s.subrange(pos as int, n as int), NEWLINE), line_number as int),
            ) == text_rotations(s),
        decreases n - pos,
    {
        let end = find_byte(input, pos, NEWLINE);
        let line = &input[pos..end];
        let ghost rest = s.subrange(pos as int, n as int);
        let ghost k = line_number as int;
        proof {
            assert(rest.subrange(0, end - pos) =~= line@);
            let ls = pieces(rest, NEWLINE);
            if end < n {
                assert(rest.subrange(end - pos + 1, rest.len() as int) =~= s.subrange(
                    end + 1,
                    n as int,
                ));
                assert(ls.drop_first() =~= pieces(s.subrange(end + 1, n as int), NEWLINE));
            } else {
                assert(ls.drop_first() =~= seq![]);
            }
        }
        let parsed = parse_line(line, line_number);
        match parsed {
            Err(e) => {
                return Err(e);
            },
            Ok(None) => {},
            Ok(Some(r)) => {
                let ghost done = instructions@;
                instructions.push(r);
                proof {
                    let tail = lines_rotations(pieces(rest, NEWLINE).drop_first(), k + 1);
                    if let Ok(rs) = tail {
                        assert(done + (seq![r] + rs) =~= instructions@ + rs);
                    }
                }
            },
        }
        if end == n {
            pos = n;
            proof {
                assert(s.subrange(n as int, n as int) =~= Seq::<u8>::empty());
                assert(instructions@ + seq![] =~= instructions@);
            }
        } else {
            pos = end + 1;
            // Past the last newline no line is left to number.
            if pos < n {
                line_number = line_number + 1;
            }
        }
    }
    proof {
        assert(s.subrange(n as int, n as int) =~= Seq::<u8>::empty());
        assert(instructions@ + seq![] =~= instructions@);
    }
    Ok(instructions)
}

/// Graduation that the dial points at before the first rotation.
pub const START_POSITION: usize = 50;

/// Where a dial that points at `p` points once turned by `rot`.
pub open spec fn turned(p: int, rot: Rotation) -> int {
    match rot.direction {
        Direction::Right => (p + rot.steps) % MAX_DIAL as int,
        Direction::Left => (p - rot.steps) % MAX_DIAL as int,
    }
}

/// Where a dial that points at `p` points once turned by each of `rs` in turn.
pub open spec fn position_after(p: int, rs: Seq<Rotation>) -> int
    decreases rs.len(),
{
    if rs.len() == 0 {
        p
    } else {
        turned(position_after(p, rs.drop_last()), rs.last())
    }
}

/// Number of rotations of `rs` after which a dial that started at `p` points
/// at zero.
pub open spec fn stops_at_zero(p: int, rs: Seq<Rotation>) -> nat
    decreases rs.len(),
{
    if rs.len() == 0 {
        0
    } else {
        stops_at_zero(p, rs.drop_last()) + if position_after(p, rs) == 0 {
            1nat
        } else {
            0nat
        }
    }
}

/// A round dial graduated from 0 to 99 clock-wise.
#[derive(Debug, Clone, Copy, PartialEq, Eq, Structural)]
pub struct Dial {
    pos: usize,
}

impl Dial {
    /// The graduation that the dial points at.
    pub closed spec fn spec_position(&self) -> int {
        self.pos as int
    }

    pub open spec fn wf(&self) -> bool {
        0 <= self.spec_position() < MAX_DIAL
    }

    pub fn new(pos: usize) -> (r: Dial)
        requires
            pos < MAX_DIAL,
        ensures
            r.wf(),
            r.spec_position() == pos,
    {
        Dial { pos }
    }

    pub fn position(&self) -> (r: usize)
        ensures
            r == self.spec_position(),
    {
        self.pos
    }

    /// Turns the dial `steps` clicks to the right.
    pub fn turn_right(&mut self, steps: usize)
        requires
            old(self).wf(),
        ensures
            final(self).wf(),
            final(self).spec_position() == (old(self).spec_position() + steps) % MAX_DIAL as int,
    {
        let ghost p = self.pos as int;
        let rest = steps % MAX_DIAL;
        let sum = self.pos + rest;
        self.pos = if sum >= MAX_DIAL { sum - MAX_DIAL } else { sum };
        proof {
            let turns = (steps / MAX_DIAL) as int;
            let q = if sum >= MAX_DIAL { turns + 1 } else { turns };
            lemma_fundamental_div_mod_converse(p + steps, 100, q, self.pos as int);
        }
    }

    /// Turns the dial `steps` clicks to the left.
    pub fn turn_left(&mut self, steps: usize)
        requires
            old(self).wf(),
        ensures
            final(self).wf(),
            final(self).spec_position() == (old(self).spec_position() - steps) % MAX_DIAL as int,
    {
        let ghost p = self.pos as int;
        let steps_mod = steps % MAX_DIAL;
        let turns = steps / MAX_DIAL;
        if self.pos < steps_mod {
            self.pos = MAX_DIAL - (steps_mod - self.pos);
            proof {
                lemma_fundamental_div_mod_converse(p - steps, 100, -turns - 1, self.pos as int);
            }
        } else {
            self.pos = self.pos - steps_mod;
            proof {
                lemma_fundamental_div_mod_converse(p - steps, 100, -turns, self.pos as int);
            }
        }
    }
}

/// Turns a dial that starts at `START_POSITION` as `instructions` say and
/// returns the number of rotations after which it points at zero.
pub fn execute_instructions(instructions: &[Rotation]) -> (r: usize)
    ensures
        r == stops_at_zero(START_POSITION as int, instructions@),
{
    let ghost rs = instructions@;
    let mut dial = Dial::new(START_POSITION);
    let mut number_of_zeroes: usize = 0;
    let mut i: usize = 0;
    while i < instructions.len()
        invariant
            rs == instructions@,
            i <= rs.len(),
            dial.wf(),
            dial.spec_position() == position_after(START_POSITION as int, rs.subrange(0, i as int)),
            number_of_zeroes == stops_at_zero(START_POSITION as int, rs.subrange(0, i as int)),
            number_of_zeroes <= i,
        decreases rs.len() - i,
    {
        let rotation = instructions[i];
        match rotation.direction {
            Direction::Right => dial.turn_right(rotation.steps),
            Direction::Left => dial.turn_left(rotation.steps),
        }
        proof {
            assert(rs.subrange(0, i + 1).drop_last() =~= rs.subrange(0, i as int));
        }
        if dial.position() == 0 {
            number_of_zeroes = number_of_zeroes + 1;
        }
        i = i + 1;
    }
    assert(rs.subrange(0, i as int) =~= rs);
    number_of_zeroes
}

/// Number of rotations listed in text `s` after which the dial points at
/// zero, or the error of the first line that lists none.
pub open spec fn password(s: Seq<u8>) -> Result<usize, InstructionError> {
    match text_rotations(s) {
        Ok(rs) => Ok(stops_at_zero(START_POSITION as int, rs) as usize),
        Err(e) => Err(e),
    }
}

/// Reads rotations from `input` and returns the number of rotations after
/// which the dial points at zero.
pub fn solve_for(input: &[u8]) -> (r: Result<usize, InstructionError>)
    ensures
        r == password(input@),
{
    let instructions = read_instructions(input)?;
    Ok(execute_instructions(instructions.as_slice()))
}

} // verus!
