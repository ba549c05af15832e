use concurrent_bst::order::route;
use concurrent_bst::order::seek;
use concurrent_bst::Side;

#[test]
fn route_sends_larger_and_level_values_left() {
    assert_eq!(route(&5, &7), Side::Left);
    assert_eq!(route(&5, &5), Side::Left);
    assert_eq!(route(&5, &3), Side::Right);
    assert_eq!(route(&i32::MIN, &i32::MAX), Side::Left);
    assert_eq!(route(&i32::MAX, &i32::MIN), Side::Right);
}

#[test]
fn seek_stops_on_a_level_value() {
    assert_eq!(seek(&5, &5), None);
    assert_eq!(seek(&5, &7), Some(Side::Left));
    assert_eq!(seek(&5, &3), Some(Side::Right));
}

#[test]
fn seek_turns_where_route_goes() {
    for at in 0..6 {
        for val in 0..6 {
            match seek(&at, &val) {
                Some(side) => assert_eq!(side, route(&at, &val)),
                None => assert_eq!(at, val),
            }
        }
    }
}
