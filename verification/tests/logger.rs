use rua::logger::logger::{RuaLogger, RuaResult};
use rua::utils::string::{copy_bytes, copy_bytes_check};

#[test]
fn results() {
    let r = RuaResult::default();
    assert!(r.is_ok());
    assert_eq!(r.res(), &Ok((None, None)));
    let r = RuaResult::ok(Some(vec![vec!["a".to_string()]]), "done".to_string());
    assert!(r.is_ok());
    assert_eq!(r.res(), &Ok((Some(vec![vec!["a".to_string()]]), Some("done".to_string()))));
    let r = RuaResult::err("bad".to_string());
    assert!(r.is_err());
    assert!(!r.is_ok());
    assert_eq!(r.res(), &Err("bad".to_string()));
    let _ = RuaLogger::new();
}

#[test]
fn copying_bytes() {
    let mut buf = [0u8; 6];
    copy_bytes(&mut buf, "abc");
    assert_eq!(&buf[..3], b"abc");
    let mut buf2 = [9u8; 4];
    copy_bytes_check(&mut buf2, "xyz", 2);
    assert_eq!(&buf2[..2], b"xy");
}
