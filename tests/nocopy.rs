use interner::nocopy::Interner;
use interner::string_nocopy::StringInterner;

#[test]
fn same_slice_twice_gives_equal_handles() {
    let data = vec![1u8, 2, 3];
    let mut i = Interner::new();
    let a = i.intern(&data);
    let b = i.intern(&data);
    assert!(a == b);
    assert_eq!(i.len(), 1);
    assert!(std::ptr::eq(a.val(), &data[..]));
}

#[test]
fn equal_content_in_distinct_allocations_dedups() {
    let first = vec![7u8, 8, 9];
    let second = vec![7u8, 8, 9];
    let mut i = Interner::new();
    let a = i.intern(&first);
    let b = i.intern(&second);
    assert!(a == b);
    assert_eq!(i.len(), 1);
    assert!(std::ptr::eq(b.val(), &first[..]));
    assert!(!std::ptr::eq(b.val(), &second[..]));
}

#[test]
fn nocopy_distinct_values() {
    let x = b"left".to_vec();
    let y = b"right".to_vec();
    let mut i = Interner::default();
    let a = i.intern(&x);
    let b = i.intern(&y);
    assert!(a != b);
    assert_eq!(a.val(), b"left");
    assert_eq!(b.val(), b"right");
    assert_eq!(i.len(), 2);
}

#[test]
fn nocopy_intern_once() {
    let x = b"once".to_vec();
    let y = b"once".to_vec();
    let mut i = Interner::new();
    let first = i.intern_once(&x);
    assert!(first.is_some());
    assert!(i.intern_once(&y).is_none());
    let later = i.intern(&y);
    assert!(first.unwrap() == later);
    assert!(std::ptr::eq(later.val(), &x[..]));
}

#[test]
fn nocopy_strings() {
    let a = String::from("cat");
    let b = String::from("cat");
    let c = String::from("dog");
    let mut s = StringInterner::new();
    let ha = s.intern(&a);
    let hb = s.intern(&b);
    let hc = s.intern(&c);
    assert!(ha == hb);
    assert!(ha != hc);
    assert_eq!(hb.val(), "cat");
    assert!(std::ptr::eq(hb.val(), a.as_str()));
    assert_eq!(s.len(), 2);
    assert!(s.intern_once(&c).is_none());
    let d = String::from("emu");
    assert_eq!(s.intern_once(&d).map(|h| h.val()), Some("emu"));
}

#[test]
fn nocopy_string_default_empty() {
    let s = StringInterner::default();
    assert_eq!(s.len(), 0);
}
