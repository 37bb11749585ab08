use nanogallery::util::Vec2;
use std::cmp::Ordering;

#[test]
fn vec2_arithmetic() {
    let v = Vec2::from(10, 20);
    assert_eq!(v.add(5), Vec2::from(15, 25));
    assert_eq!(v.sub(10), Vec2::from(0, 10));
    assert_eq!(v.sub2(3, 20), Vec2::from(7, 0));
    assert_eq!(Vec2::zero(), Vec2::from(0, 0));
}

#[test]
fn vec2_dominance_order() {
    let a = Vec2::from(1, 1);
    assert_eq!(a.partial_cmp(&Vec2::from(2, 3)), Some(Ordering::Less));
    assert_eq!(Vec2::from(5, 4).partial_cmp(&a), Some(Ordering::Greater));
    assert_eq!(a.partial_cmp(&Vec2::from(1, 1)), Some(Ordering::Equal));
    assert_eq!(a.partial_cmp(&Vec2::from(1, 2)), None);
    assert_eq!(a.partial_cmp(&Vec2::from(0, 2)), None);
    assert!(a < Vec2::from(2, 2));
    assert!(!(a < Vec2::from(2, 1)));
    assert!(!(a > Vec2::from(2, 1)));
}
