use rua::rm::filesystem::bufmanager::buf_page_manager::{BufPageManager, PageFetch};
use rua::rm::filesystem::bufmanager::find_replace::FindReplace;
use rua::rm::filesystem::fileio::file_manager::FileManager;
use rua::rm::filesystem::utils::hashmap::Hashmap;
use rua::rm::filesystem::utils::linklist::LinkList;

#[test]
fn link_list_order() {
    let mut l = LinkList::new(4, 2);
    l.insert(0, 1);
    l.insert(0, 3);
    l.insert(1, 2);
    assert_eq!(l.get_first(0), 1);
    assert_eq!(l.next(1), 3);
    assert!(l.is_head(l.next(3)));
    assert_eq!(l.get_first(1), 2);
    l.del(1);
    assert!(l.is_alone(1));
    assert_eq!(l.get_first(0), 3);
    l.insert_first(0, 0);
    assert_eq!(l.get_first(0), 3);
    assert_eq!(l.next(3), 0);
}

#[test]
fn hashmap_find_replace_remove() {
    let mut h = Hashmap::new(8, 8);
    assert_eq!(h.find_index(1, 2), -1);
    h.replace(3, 1, 2);
    assert_eq!(h.find_index(1, 2), 3);
    assert_eq!(h.get_keys(3), (1, 2));
    h.remove(3);
    assert_eq!(h.find_index(1, 2), -1);
    assert_eq!(h.get_keys(3), (-1, -1));
    assert!(h.can_find(1, 2));
}

#[test]
fn replacement_order() {
    let mut f = FindReplace::new(3);
    assert_eq!(f.find(), 0);
    assert_eq!(f.find(), 1);
    f.access(2);
    assert_eq!(f.find(), 0);
    f.free(2);
    assert_eq!(f.first(), 1);
}

#[test]
fn file_numbers() {
    let mut fm = FileManager::new();
    assert!(fm.open_ready());
    assert_eq!(fm.open_file("a.rua".to_string()), 0);
    assert_eq!(fm.open_file("b.rua".to_string()), 1);
    assert_eq!(fm.file_name(1), Some("b.rua".to_string()));
    fm.close_file(0);
    assert_eq!(fm.open_file("c.rua".to_string()), 0);
    assert_eq!(fm.file_name(0), Some("c.rua".to_string()));
    assert!(fm.type_ready());
    assert_eq!(fm.new_type(), 0);
    assert_eq!(fm.new_type(), 1);
    fm.close_type(0);
    assert_eq!(fm.new_type(), 0);
}

#[test]
fn page_cache() {
    let mut b = BufPageManager::new();
    assert!(b.page_ready(0, 5));
    match b.get_page(0, 5) {
        PageFetch::Miss { index, write_back, fresh } => {
            assert_eq!(index, 0);
            assert!(write_back.is_none());
            assert!(fresh);
        }
        PageFetch::Hit { .. } => panic!("a new page cannot be cached"),
    }
    match b.get_page(0, 5) {
        PageFetch::Hit { index } => assert_eq!(index, 0),
        PageFetch::Miss { .. } => panic!("the page is cached"),
    }
    assert_eq!(b.get_key(0), (0, 5));
    b.mark_dirty(0);
    assert_eq!(b.write_back(0), Some((0, 5)));
    assert_eq!(b.get_key(0), (-1, -1));
    assert_eq!(b.write_back(0), None);

    match b.get_page(1, 7) {
        PageFetch::Miss { index, .. } => {
            b.mark_dirty(index);
            let out = b.write_back_file(1, &vec![7, 8]).unwrap();
            assert_eq!(out, vec![(index, 7)]);
        }
        PageFetch::Hit { .. } => panic!("a new page cannot be cached"),
    }
    match b.get_page(2, 1) {
        PageFetch::Miss { index, .. } => {
            b.mark_dirty(index);
            let out = b.close();
            assert_eq!(out, vec![(index, (2, 1))]);
        }
        PageFetch::Hit { .. } => panic!("a new page cannot be cached"),
    }
}

#[test]
fn released_buffer_goes_after_the_first() {
    let mut b = BufPageManager::new();
    let first = match b.get_page(0, 1) {
        PageFetch::Miss { index, .. } => index,
        PageFetch::Hit { index } => index,
    };
    let _ = b.get_page(0, 2);
    b.release(first);
    // the order was 2, 3, .., 0, 1; the released buffer is linked after buffer 2
    match b.get_page(0, 3) {
        PageFetch::Miss { index, fresh, .. } => {
            assert_eq!(index, 2);
            assert!(fresh);
        }
        PageFetch::Hit { .. } => panic!("a new page cannot be cached"),
    }
    match b.get_page(0, 4) {
        PageFetch::Miss { index, fresh, .. } => {
            assert_eq!(index, first);
            assert!(!fresh);
        }
        PageFetch::Hit { .. } => panic!("a new page cannot be cached"),
    }
}
