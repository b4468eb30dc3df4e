use time_coord::arith::{floor_div, floor_mod, round_up_to};

#[test]
fn floor_division() {
    assert_eq!(floor_div(7, 2), 3);
    assert_eq!(floor_div(-7, 2), -4);
    assert_eq!(floor_div(-8, 2), -4);
    assert_eq!(floor_div(0, 5), 0);
    assert_eq!(floor_div(-1, 12), -1);
}

#[test]
fn floor_remainder() {
    assert_eq!(floor_mod(7, 2), 1);
    assert_eq!(floor_mod(-7, 2), 1);
    assert_eq!(floor_mod(-8, 2), 0);
    assert_eq!(floor_mod(-1, 12), 11);
}

#[test]
fn rounding_up_to_a_multiple() {
    assert_eq!(round_up_to(0, 5), 0);
    assert_eq!(round_up_to(1, 5), 5);
    assert_eq!(round_up_to(5, 5), 5);
    assert_eq!(round_up_to(-1, 5), 0);
    assert_eq!(round_up_to(-5, 5), -5);
    assert_eq!(round_up_to(-6, 5), -5);
}
