//! Counting every click at which a dial points at zero while it follows a
//! list of rotations.
use crate::dial::{zeros_turning_left, zeros_turning_right, Dial, MAX_DIAL};
use crate::secret_entrance::{
    position_after, read_instructions, text_rotations, Direction, InstructionError, Rotation,
    START_POSITION,
};
use vstd::prelude::*;

verus! {

/// Clicks at which a dial that points at `p` points at zero while it is
/// turned by `rot`.
pub open spec fn zeros_during(p: int, rot: Rotation) -> int {
    match rot.direction {
        Direction::Right => zeros_turning_right(p, rot.steps as int),
        Direction::Left => zeros_turning_left(p, rot.steps as int),
    }
}

/// Times a dial that starts at `p` points at zero: at the start, and at each
/// click of each rotation of `rs` in turn.
pub open spec fn zero_clicks(p: int, rs: Seq<Rotation>) -> int
    decreases rs.len(),
{
    if rs.len() == 0 {
        if p == 0 {
            1
        } else {
            0
        }
    } else {
        zero_clicks(p, rs.drop_last()) + zeros_during(position_after(p, rs.drop_last()), rs.last())
    }
}

proof fn lemma_position_in_range(p: int, rs: Seq<Rotation>)
    requires
        0 <= p < MAX_DIAL,
    ensures
        0 <= position_after(p, rs) < MAX_DIAL,
{
}

/// The count only grows as rotations are added.
proof fn lemma_zero_clicks_grow(p: int, rs: Seq<Rotation>, i: int)
    requires
        0 <= p < MAX_DIAL,
        0 <= i <= rs.len(),
    ensures
        0 <= zero_clicks(p, rs.subrange(0, i)) <= zero_clicks(p, rs),
    decreases rs.len(),
{
    if i < rs.len() {
        let d = rs.drop_last();
        assert(d.subrange(0, i) =~= rs.subrange(0, i));
        lemma_zero_clicks_grow(p, d, i);
        lemma_position_in_range(p, d);
    } else {
        assert(rs.subrange(0, i) =~= rs);
        if rs.len() > 0 {
            lemma_zero_clicks_grow(p, rs.drop_last(), i - 1);
            assert(rs.drop_last().subrange(0, i - 1) =~= rs.drop_last());
            lemma_position_in_range(p, rs.drop_last());
        }
    }
}

/// Turns `dial` as `instructions` say and returns the number of times it
/// pointed at zero: at the start and while being turned. `None` when that
/// number exceeds `usize::MAX`.
pub fn execute_instructions(dial: Dial, instructions: &[Rotation]) -> (r: Option<usize>)
    requires
        dial.wf(),
    ensures
        r == if zero_clicks(dial.spec_position(), instructions@) <= usize::MAX {
            Some(zero_clicks(dial.spec_position(), instructions@) as usize)
        } else {
            None::<usize>
        },
{
    let ghost rs = instructions@;
    let ghost p = dial.spec_position();
    let mut current = dial;
    let mut number_of_zeroes: usize = if current.position() == 0 { 1 } else { 0 };
    let mut i: usize = 0;
    assert(rs.subrange(0, 0) =~= Seq::<Rotation>::empty());
    while i < instructions.len()
        invariant
            rs == instructions@,
            p == dial.spec_position(),
            0 <= p < MAX_DIAL,
            i <= rs.len(),
            current.wf(),
            current.spec_position() == position_after(p, rs.subrange(0, i as int)),
            number_of_zeroes == zero_clicks(p, rs.subrange(0, i as int)),
        decreases rs.len() - i,
    {
        let rotation = instructions[i];
        let n = match rotation.direction {
            Direction::Right => current.turn_right(rotation.steps),
            Direction::Left => current.turn_left(rotation.steps),
        };
        proof {
            assert(rs.subrange(0, i + 1).drop_last() =~= rs.subrange(0, i as int));
            assert(rs.subrange(0, i + 1).last() == rotation);
            assert(zero_clicks(p, rs.subrange(0, i + 1)) == number_of_zeroes + n);
        }
        match number_of_zeroes.checked_add(n) {
            Some(total) => {
                number_of_zeroes = total;
            },
            None => {
                proof {
                    lemma_zero_clicks_grow(p, rs, i + 1);
                }
                return None;
            },
        }
        i = i + 1;
    }
    assert(rs.subrange(0, i as int) =~= rs);
    Some(number_of_zeroes)
}

/// Why no password came out of a text.
#[derive(Debug, Clone, Copy, PartialEq, Eq, Structural)]
pub enum PasswordError {
    /// A line of the text lists no rotation.
    Instruction(InstructionError),
    /// The dial points at zero more than `usize::MAX` times.
    TooManyZeros,
}

/// Times the dial points at zero, from `START_POSITION`, while it follows the
/// rotations listed in text `s`.
pub open spec fn password(s: Seq<u8>) -> Result<usize, PasswordError> {
    match text_rotations(s) {
        Ok(rs) => if zero_clicks(START_POSITION as int, rs) <= usize::MAX {
            Ok(zero_clicks(START_POSITION as int, rs) as usize)
        } else {
            Err(PasswordError::TooManyZeros)
        },
        Err(e) => Err(PasswordError::Instruction(e)),
    }
}

/// Reads rotations from `input` and returns the number of times the dial
/// points at zero while it follows them.
pub fn solve_for(input: &[u8]) -> (r: Result<usize, PasswordError>)
    ensures
        r == password(input@),
{
    match read_instructions(input) {
        Ok(instructions) => match execute_instructions(
            Dial::new(START_POSITION),
            instructions.as_slice(),
        ) {
            Some(n) => Ok(n),
            None => Err(PasswordError::TooManyZeros),
        },
        Err(e) => Err(PasswordError::Instruction(e)),
    }
}

} // verus!
