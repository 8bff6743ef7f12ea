use advent_code_25::secret_entrance::{
    execute_instructions, read_instructions, solve_for, Dial, Direction, InstructionError, Rotation,
};

#[test]
fn secret_entrance_right_rotation_no_wrap() {
    let r = Rotation { direction: Direction::Right, steps: 5 };
    let mut d = Dial::new(10);
    d.turn_right(r.steps);
    assert_eq!(d.position(), 15);
}

#[test]
fn right_rotation_wrap() {
    let r = Rotation { direction: Direction::Right, steps: 60 };
    let mut d = Dial::new(60);
    d.turn_right(r.steps);
    assert_eq!(d.position(), 20);
}

#[test]
fn left_rotation_no_underflow() {
    let r = Rotation { direction: Direction::Left, steps: 5 };
    let mut d = Dial::new(20);
    d.turn_left(r.steps);
    assert_eq!(d.position(), 15);
}

#[test]
fn left_rotation_equal_steps() {
    let r = Rotation { direction: Direction::Left, steps: 10 };
    let mut d = Dial::new(10);
    d.turn_left(r.steps);
    assert_eq!(d.position(), 0);
}

#[test]
fn left_rotation_underflow() {
    let r = Rotation { direction: Direction::Left, steps: 30 };
    let mut d = Dial::new(10);
    d.turn_left(r.steps);
    assert_eq!(d.position(), 80);
}

#[test]
fn right_rotation_steps_greater_than_max_dial() {
    let r = Rotation { direction: Direction::Right, steps: 260 };
    let mut d = Dial::new(10);
    d.turn_right(r.steps);
    assert_eq!(d.position(), 70);
}

#[test]
fn left_rotation_steps_greater_than_max_dial() {
    let l = Rotation { direction: Direction::Left, steps: 130 };
    let mut d = Dial::new(10);
    d.turn_left(l.steps);
    assert_eq!(d.position(), 80);
}

#[test]
fn left_rotation_steps_greater_than_max_dial_ends_on_zero() {
    let l = Rotation { direction: Direction::Left, steps: 849 };
    let mut d = Dial::new(49);
    d.turn_left(l.steps);
    assert_eq!(d.position(), 0);
}

#[test]
fn secret_entrance_read_instructions_empty() {
    let data = "";
    let v = read_instructions(data.as_bytes()).unwrap();
    assert!(v.is_empty());
}

#[test]
fn secret_entrance_read_instructions_single() {
    let data = "R10\n";
    let v = read_instructions(data.as_bytes()).unwrap();
    assert_eq!(v.len(), 1);
    assert!(matches!(v[0].direction, Direction::Right));
    assert_eq!(v[0].steps, 10);
}

#[test]
fn secret_entrance_read_instructions_multiple() {
    let data = "R5\nL15\nR100\n";
    let v = read_instructions(data.as_bytes()).unwrap();
    assert_eq!(v.len(), 3);
    assert!(matches!(v[0].direction, Direction::Right));
    assert_eq!(v[0].steps, 5);
    assert!(matches!(v[1].direction, Direction::Left));
    assert_eq!(v[1].steps, 15);
    assert!(matches!(v[2].direction, Direction::Right));
    assert_eq!(v[2].steps, 100);
}

#[test]
fn secret_entrance_read_instructions_invalid_direction() {
    let data = "X10\n";
    assert!(read_instructions(data.as_bytes()).is_err());
}

#[test]
fn secret_entrance_read_instructions_invalid_step() {
    let data = "R1a\n";
    assert!(read_instructions(data.as_bytes()).is_err());
}

#[test]
fn read_instructions_reports_line_numbers() {
    let data = "R5\n\nL7\nQ3\n";
    assert_eq!(read_instructions(data.as_bytes()), Err(InstructionError::InvalidDirection { line: 4 }));
    let data = "R5\nL\n";
    assert_eq!(read_instructions(data.as_bytes()), Err(InstructionError::InvalidStep { line: 2 }));
    let data = "R99999999999999999999999\n";
    assert_eq!(read_instructions(data.as_bytes()), Err(InstructionError::InvalidStep { line: 1 }));
    let data = "R-3\n";
    assert_eq!(read_instructions(data.as_bytes()), Err(InstructionError::InvalidStep { line: 1 }));
}

#[test]
fn read_instructions_trims_and_skips_blank_lines() {
    let data = "  R5 \r\n\n \t\nL+15\nR7";
    let v = read_instructions(data.as_bytes()).unwrap();
    assert_eq!(
        v,
        vec![
            Rotation { direction: Direction::Right, steps: 5 },
            Rotation { direction: Direction::Left, steps: 15 },
            Rotation { direction: Direction::Right, steps: 7 },
        ]
    );
}

#[test]
fn execute_example_counts_stops_at_zero() {
    let data = "L68\nL30\nR48\nL5\nR60\nL55\nL1\nL99\nR14\nL82\n";
    let v = read_instructions(data.as_bytes()).unwrap();
    assert_eq!(execute_instructions(&v), 3);
    assert_eq!(solve_for(data.as_bytes()), Ok(3));
    assert_eq!(execute_instructions(&[]), 0);
}
