use advent_code_25::dial::Dial;

#[test]
fn dial_right_rotation_no_wrap() {
    let mut d = Dial::new(10);
    assert_eq!(d.turn_right(5), 0);
    assert_eq!(d.position(), 15);
}

#[test]
fn right_rotation_wrap_once() {
    let mut d = Dial::new(60);
    assert_eq!(d.turn_right(60), 1);
    assert_eq!(d.position(), 20);
}

#[test]
fn right_rotation_wrap_many() {
    let mut d = Dial::new(60);
    assert_eq!(d.turn_right(260), 3);
    assert_eq!(d.position(), 20);
}

#[test]
fn right_rotation_end_on_zero() {
    let mut d = Dial::new(1);
    assert_eq!(d.turn_right(99), 1);
    assert_eq!(d.position(), 0);
}

#[test]
fn right_rotation_wrap_and_end_on_zero() {
    let mut d = Dial::new(0);
    assert_eq!(d.turn_right(200), 2);
    assert_eq!(d.position(), 0);
}

#[test]
fn left_rotation_no_wrap() {
    let mut d = Dial::new(20);
    assert_eq!(d.turn_left(5), 0);
    assert_eq!(d.position(), 15);
}

#[test]
fn left_rotation_end_on_zero() {
    let mut d = Dial::new(10);
    assert_eq!(d.turn_left(10), 1);
    assert_eq!(d.position(), 0);
}

#[test]
fn left_rotation_wrap_once() {
    let mut d = Dial::new(10);
    assert_eq!(d.turn_left(30), 1);
    assert_eq!(d.position(), 80);
}

#[test]
fn left_rotation_wrap_many() {
    let mut d = Dial::new(10);
    assert_eq!(d.turn_left(130), 2);
    assert_eq!(d.position(), 80);
}

#[test]
fn left_rotation_wrap_many_end_on_zero() {
    let mut d = Dial::new(49);
    assert_eq!(d.turn_left(849), 9);
    assert_eq!(d.position(), 0);
}

#[test]
fn left_rotation_from_zero_counts_only_arrivals() {
    let mut d = Dial::new(0);
    assert_eq!(d.turn_left(5), 0);
    assert_eq!(d.position(), 95);
    let mut d = Dial::new(0);
    assert_eq!(d.turn_left(100), 1);
    assert_eq!(d.position(), 0);
    let mut d = Dial::new(0);
    assert_eq!(d.turn_left(0), 0);
    assert_eq!(d.position(), 0);
}

#[test]
fn turns_of_the_largest_size() {
    let mut d = Dial::new(99);
    assert_eq!(d.turn_right(usize::MAX), ((99 + (usize::MAX as u128)) / 100) as usize);
    assert_eq!(d.position(), ((99 + (usize::MAX as u128)) % 100) as usize);
    let mut d = Dial::new(0);
    assert_eq!(d.turn_left(usize::MAX), usize::MAX / 100);
    assert_eq!(d.position(), 100 - (usize::MAX % 100));
}
