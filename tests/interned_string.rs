use std::sync::{Arc, Mutex};
use yaplang::whitespace::is_whitespace;
use yaplang::{InternedString, Interner};

#[test]
fn interning_twice_gives_equal_handles() {
    let mut strings = Interner::new();
    let a = InternedString::from_str("hello", &mut strings);
    let b = InternedString::from_string(String::from("hello"), &mut strings);
    assert_eq!(a, b);
    assert_eq!(a.as_str(), "hello");
    assert!(std::ptr::eq(a.as_str(), b.as_str()));
    assert_eq!(strings.len(), 1);
}

#[test]
fn distinct_texts_get_distinct_entries() {
    let mut strings = Interner::new();
    let a = InternedString::from_str("a", &mut strings);
    let b = InternedString::from_str("b", &mut strings);
    let e = InternedString::from_str("", &mut strings);
    assert_ne!(a, b);
    assert_eq!(b.as_str(), "b");
    assert_eq!(e.as_str(), "");
    assert_eq!(strings.len(), 3);
    assert!(a < b);
}

#[test]
fn many_callers_share_one_allocation() {
    let strings = Arc::new(Mutex::new(Interner::new()));
    let first = InternedString::from_str("shared", &mut strings.lock().unwrap());
    for k in 0..8 {
        let shared = Arc::clone(&strings);
        let s = if k % 2 == 0 {
            InternedString::from_string(String::from("shared"), &mut shared.lock().unwrap())
        } else {
            InternedString::from_str("shared", &mut shared.lock().unwrap())
        };
        assert_eq!(s, first);
        assert_eq!(s.as_str().as_ptr(), first.as_str().as_ptr());
    }
    assert_eq!(strings.lock().unwrap().len(), 1);
}

#[test]
fn whitespace_matches_std() {
    for u in 0..=0x10ffffu32 {
        if let Some(c) = char::from_u32(u) {
            assert_eq!(is_whitespace(c), c.is_whitespace(), "U+{:04X}", u);
        }
    }
}
