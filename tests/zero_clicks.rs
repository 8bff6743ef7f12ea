use advent_code_25::dial::Dial;
use advent_code_25::secret_entrance::{read_instructions, Direction, InstructionError, Rotation};
use advent_code_25::zero_clicks::{execute_instructions, solve_for, PasswordError};

#[test]
fn main_read_instructions_empty() {
    let data = "";
    let v = read_instructions(data.as_bytes()).unwrap();
    assert!(v.is_empty());
}

#[test]
fn main_read_instructions_single() {
    let data = "R10\n";
    let v = read_instructions(data.as_bytes()).unwrap();
    assert_eq!(v.len(), 1);
    assert!(matches!(v[0].direction, Direction::Right));
    assert_eq!(v[0].steps, 10);
}

#[test]
fn main_read_instructions_multiple() {
    let data = "R5\nL15\nR100\n";
    let v = read_instructions(data.as_bytes()).unwrap();
    assert_eq!(v.len(), 3);
    assert!(matches!(v[0].direction, Direction::Right));
    assert_eq!(v[0].steps, 5);
    assert!(matches!(v[1].direction, Direction::Left));
    assert_eq!(v[1].steps, 15);
    assert!(matches!(v[2].direction, Direction::Right));
    assert_eq!(v[2].steps, 100);
}

#[test]
fn main_read_instructions_invalid_direction() {
    let data = "X10\n";
    assert!(read_instructions(data.as_bytes()).is_err());
}

#[test]
fn main_read_instructions_invalid_step() {
    let data = "R1a\n";
    assert!(read_instructions(data.as_bytes()).is_err());
}

#[test]
fn example_counts_every_click_on_zero() {
    let data = "L68\nL30\nR48\nL5\nR60\nL55\nL1\nL99\nR14\nL82\n";
    assert_eq!(solve_for(data.as_bytes()), Ok(6));
    assert_eq!(solve_for(b"R1000\n"), Ok(10));
    assert_eq!(solve_for(b"R5\nX\n"), Err(PasswordError::Instruction(InstructionError::InvalidDirection { line: 2 })));
}

#[test]
fn start_on_zero_counts_once() {
    assert_eq!(execute_instructions(Dial::new(0), &[]), Some(1));
    let v = vec![Rotation { direction: Direction::Left, steps: 1 }];
    assert_eq!(execute_instructions(Dial::new(0), &v), Some(1));
    assert_eq!(execute_instructions(Dial::new(1), &v), Some(1));
}

#[test]
fn too_many_zeros_is_reported() {
    let v = vec![Rotation { direction: Direction::Right, steps: usize::MAX }; 101];
    assert_eq!(execute_instructions(Dial::new(0), &v), None);
}
