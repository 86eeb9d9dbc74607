use rua::utils::bit::{
    all_free, all_used, free_num, get_free_index, is_free, is_one, is_used, is_zero, set_free,
    set_used, used_num,
};

#[test]
fn bit() {
    assert_eq!(free_num(0x0fff0ff1, 30), 9);
    assert_eq!(free_num(0x0fff0ff1, 32), 11);

    assert_eq!(free_num(0x0fff0ff1, 1), 0);
    assert_eq!(free_num(0x0fff0ff1, 10), 3);

    assert!(all_free(0x0fff0ff2, 1));
    assert!(!all_free(0x0fff0ff2, 2));

    assert!(is_used(0x0fff0ff2, 5));
    assert!(is_free(0x0fff0ff2, 31));

    assert!(all_used(0x3fffffff, 30));

    let mut a = 0x00ff0f11;
    set_free(&mut a, 0);
    assert_eq!(a, 0x00ff0f10);
    set_free(&mut a, 0);
    assert_eq!(a, 0x00ff0f10);
    set_used(&mut a, 3);
    assert_eq!(a, 0x00ff0f18);
}

#[test]
fn bit_op_test() {
    assert_eq!(get_free_index(0xFFu32), 8);
    assert!(all_used(0xFFFFFFFFu32, 30));
    assert!(!all_used(0xFFFFFF8Fu32, 30));
    let mut a = 0x1u32;
    set_used(&mut a, 1);
    assert_eq!(a, 0x3u32);
}

#[test]
fn free_and_used_add_up() {
    for len in 1..=32usize {
        assert_eq!(free_num(0x0fff0ff1, len) + used_num(0x0fff0ff1, len), len as u32);
    }
    assert_eq!(used_num(0x0fff0ff1, 32), 21);
    assert_eq!(used_num(0, 32), 0);
}

#[test]
fn free_index_is_lowest_clear_bit() {
    assert_eq!(get_free_index(0), 0);
    assert_eq!(get_free_index(0b1011), 2);
    assert_eq!(get_free_index(0x7fffffff), 31);
}

#[test]
fn one_and_zero_tests() {
    assert!(is_one(0b100, 2));
    assert!(!is_one(0b100, 1));
    // `is_zero` answers as `is_one` does.
    assert!(is_zero(0b100, 2));
    assert!(!is_zero(0b100, 1));
}

#[test]
fn set_used_then_free_restores() {
    let mut a = 0x1234_5678u32;
    set_used(&mut a, 31);
    assert!(is_used(a, 31));
    set_free(&mut a, 31);
    assert_eq!(a, 0x1234_5678u32);
}
