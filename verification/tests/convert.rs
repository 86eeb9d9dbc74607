use rua::utils::convert::{
    date_to_str, numeric_to_str, str_to_date, str_to_numeric, string_to_vec_u16,
    string_to_vec_u32, string_to_vec_u64, string_to_vec_u64_with_break, string_to_vec_u8,
    u64_to_vec_u8, vec_u16_to_string, vec_u32_to_string, vec_u64_to_string,
    vec_u64_to_string_len, vec_u8_to_string,
};

#[test]
fn convert() {
    assert_eq!(string_to_vec_u8(&vec_u8_to_string(&vec![1, 2, 3])), vec![1, 2, 3]);
    assert_eq!(string_to_vec_u16(&vec_u16_to_string(&vec![1, 2, 3])), vec![1, 2, 3]);
    assert_eq!(string_to_vec_u32(&vec_u32_to_string(&vec![1, 2, 3])), vec![1, 2, 3]);
    assert_eq!(string_to_vec_u64(&vec_u64_to_string(&vec![1, 2, 3])), vec![1, 2, 3]);
}

#[test]
fn words_are_little_endian() {
    assert_eq!(vec_u16_to_string(&vec![0x0102]), vec![2, 1]);
    assert_eq!(vec_u32_to_string(&vec![0x01020304]), vec![4, 3, 2, 1]);
    assert_eq!(u64_to_vec_u8(0x0102030405060708), vec![8, 7, 6, 5, 4, 3, 2, 1]);
}

#[test]
fn u64_words_stop_at_zero() {
    let bytes = vec_u64_to_string(&vec![5, 7, 0, 9]);
    assert_eq!(string_to_vec_u64_with_break(&bytes), vec![5, 7]);
    assert_eq!(vec_u64_to_string_len(&vec![5, 7], 3), vec_u64_to_string(&vec![5, 7, 0]));
}

#[test]
fn dates() {
    assert_eq!(str_to_date("2019-12-01"), (2019 << 9) | (12 << 5) | 1);
    assert_eq!(date_to_str((2019 << 9) | (12 << 5) | 1), "2019-12-01");
    assert_eq!(date_to_str(str_to_date("1999-01-31")), "1999-01-31");
    assert_eq!(str_to_date("999-01-01"), 0);
    assert_eq!(str_to_date("2019-13-01"), 0);
    assert_eq!(str_to_date("2019-12"), 0);
    assert_eq!(str_to_date("2019-1x-01"), 0);
}

#[test]
fn numerics() {
    assert_eq!(str_to_numeric("12.5", 3), 1250);
    assert_eq!(numeric_to_str(1250, 3), "12.50");
    assert_eq!(str_to_numeric("12.555", 3), 0);
    assert_eq!(str_to_numeric("12", 3), 0);
    assert_eq!(numeric_to_str(7, 1), "7");
}

#[test]
fn numeric_text_reads_back() {
    for (text, precision) in [("12.34", 3u8), ("0.5", 2), ("7.0", 2), ("123456.789", 4), ("0.10", 3)] {
        assert_eq!(numeric_to_str(str_to_numeric(text, precision), precision), text);
    }
    assert_eq!(numeric_to_str(str_to_numeric("12.05", 3), 3), "12.5");
}
