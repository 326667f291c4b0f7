use rust_sem::rect::{add, Rectangle};

#[test]
fn add_sums() {
    assert_eq!(add(2, 3), 5);
    assert_eq!(add(-7, 7), 0);
    assert_eq!(add(i32::MAX, 0), i32::MAX);
    assert_eq!(add(i32::MIN, i32::MAX), -1);
}

#[test]
fn area_is_width_times_height() {
    let r: Rectangle<i32> = Rectangle { width: 30, height: 50 };
    assert_eq!(r.area(), 1500);
    let unit = Rectangle::new(1u64, 1u64);
    assert_eq!(unit.area(), 1);
    let flat = Rectangle::new(0u8, 200u8);
    assert_eq!(flat.area(), 0);
}

#[test]
fn new_keeps_the_sides() {
    let r = Rectangle::new("ten", "twenty");
    assert_eq!(r.width, "ten");
    assert_eq!(r.height, "twenty");
    assert_eq!(format!("{:?}", r), "Rectangle { width: \"ten\", height: \"twenty\" }");
}

#[test]
fn rectangle_clones() {
    let r = Rectangle::new(3i64, 4i64);
    let s = r.clone();
    assert_eq!(s.width, 3);
    assert_eq!(s.height, 4);
    assert_eq!(s.area(), r.area());
}
