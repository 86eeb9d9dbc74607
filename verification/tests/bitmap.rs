use rua::rm::filesystem::utils::bitmap::Bitmap;

#[test]
fn full_bitmap_finds_zero() {
    let m = Bitmap::new(128, 1);
    assert!(m.can_find_left_one());
    assert_eq!(m.find_left_one(), 0);
}

#[test]
fn empty_bitmap_finds_nothing() {
    let m = Bitmap::new(128, 0);
    assert!(!m.can_find_left_one());
}

#[test]
fn set_and_clear_move_the_leftmost() {
    let mut m = Bitmap::new(128, 0);
    m.set_bit(70, 1);
    m.set_bit(40, 1);
    assert_eq!(m.find_left_one(), 40);
    m.set_bit(40, 0);
    assert_eq!(m.find_left_one(), 70);
    m.set_bit(5, 7);
    assert_eq!(m.find_left_one(), 5);
}

#[test]
fn taking_in_order() {
    let mut m = Bitmap::new(256, 1);
    for expected in 0..31 {
        let i = m.find_left_one();
        assert_eq!(i, expected);
        m.set_bit(i, 0);
    }
    // the leftmost set position is now the top bit of its word
    assert!(!m.can_find_left_one());
    m.set_bit(31, 0);
    assert_eq!(m.find_left_one(), 32);
}

#[test]
fn two_tier_bitmap() {
    // 64 words of 32 positions: one summary tier below the root
    let mut m = Bitmap::new(64 * 32, 0);
    m.set_bit(1500, 1);
    m.set_bit(1000, 1);
    assert_eq!(m.find_left_one(), 1000);
    m.set_bit(1000, 0);
    assert_eq!(m.find_left_one(), 1500);
    m.set_bit(33, 1);
    assert_eq!(m.find_left_one(), 33);
}
