use rua::rm::pagedef::{FileHeader, StrPointer, StringPage, PAGE_SIZE};
use std::mem::size_of;

#[test]
fn page_size() {
    assert!(size_of::<StringPage>() <= PAGE_SIZE);
    assert!(size_of::<FileHeader>() <= PAGE_SIZE);
}

#[test]
fn str_pointer_round_trip() {
    let p = StrPointer::new(0x0000_0003_0000_0010);
    assert_eq!(p.page, 3);
    assert_eq!(p.offset, 16);
    assert_eq!(p.to_u64(), 0x0000_0003_0000_0010);
    assert!(!p.is_null());
    assert!(StrPointer::new(0x10).is_null());
}
