use iot_structures::arith::my_add;
use iot_structures::door::{Door, Openable};
use iot_structures::layout::MyStruct;
use std::mem;

#[test]
fn this_works() {
    assert_eq!(my_add(1, 1), 2);
}

#[test]
fn my_add_reaches_the_limits() {
    assert_eq!(my_add(i32::MAX, 0), i32::MAX);
    assert_eq!(my_add(i32::MIN, 0), i32::MIN);
    assert_eq!(my_add(i32::MAX, i32::MIN), -1);
    assert_eq!(my_add(-5, 3), -2);
}

#[test]
fn open_door() {
    let mut door = Door::new(false);
    door.open();
    assert!(door.is_open);
}

#[test]
fn open_door_stays_open() {
    let mut door = Door::new(true);
    door.open();
    assert!(door.is_open);
    assert!(!Door::new(false).is_open);
}

#[test]
fn check_mem_size() {
    assert_eq!(mem::size_of::<MyStruct>(), 3 * mem::size_of::<u8>());
    assert_eq!(
        mem::size_of::<[MyStruct; 2]>(),
        3 * mem::size_of::<u8>() * 2
    );
}
