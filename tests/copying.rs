use interner::arena::{next_power_of_two, StackBuf};
use interner::copying::Interner;
use interner::index::make_hash;
use interner::string_copy::StringInterner;

#[test]
fn intern_twice_gives_equal_handles() {
    let mut i = Interner::new();
    let first = i.intern(b"hello").locator();
    let len_after_first = i.arena_len();
    let second = i.intern(b"hello").locator();
    assert_eq!(first, second);
    assert_eq!(i.arena_len(), len_after_first);
    assert_eq!(len_after_first, 8 + 5);
}

#[test]
fn intern_round_trip() {
    let mut i = Interner::new();
    assert_eq!(i.intern(b"abc").val(), b"abc");
    assert_eq!(i.intern(b"").val(), b"");
    assert_eq!(i.intern(&[0u8, 255, 7]).val(), &[0u8, 255, 7]);
}

#[test]
fn distinct_values_get_distinct_handles() {
    let mut i = Interner::new();
    let a = i.intern(b"one").locator();
    let b = i.intern(b"two").locator();
    let c = i.intern(b"").locator();
    assert_ne!(a, b);
    assert_ne!(a, c);
    assert_ne!(b, c);
    assert_eq!(a, 0);
    assert_eq!(b, 11);
    assert_eq!(c, 22);
}

#[test]
fn intern_once_protocol() {
    let mut i = Interner::new();
    let first = i.intern_once(b"value").map(|h| h.locator());
    assert!(first.is_some());
    assert!(i.intern_once(b"value").is_none());
    let later = i.intern(b"value").locator();
    assert_eq!(Some(later), first);
}

#[test]
fn growth_keeps_earlier_values() {
    let mut i = Interner::new();
    let mut issued: Vec<(usize, Vec<u8>)> = Vec::new();
    for k in 0..12u32 {
        let v: Vec<u8> = (0..(1usize << k)).map(|j| (j as u8).wrapping_add(k as u8)).collect();
        let h = i.intern(&v);
        assert_eq!(h.val(), &v[..]);
        issued.push((h.locator(), v));
    }
    for (loc, v) in &issued {
        let h = i.intern(v);
        assert_eq!(h.locator(), *loc);
        assert_eq!(h.val(), &v[..]);
    }
}

#[test]
fn null_terminated_entries() {
    let mut i = Interner::new_with_null_delim();
    assert!(i.is_null_terminated());
    let h = i.intern(b"xyz");
    assert_eq!(h.val(), b"xyz");
    assert_eq!(h.as_c_arr(), &[b'x', b'y', b'z', 0u8]);
    assert_eq!(i.arena_len(), 8 + 3 + 1);
    let e = i.intern(b"");
    assert_eq!(e.as_c_arr(), &[0u8]);
}

#[test]
fn null_terminated_strings() {
    let mut s = StringInterner::new_with_null_terminator();
    let h = s.intern("héllo");
    assert_eq!(h.val(), "héllo");
    let mut expected = "héllo".as_bytes().to_vec();
    expected.push(0);
    assert_eq!(h.as_char_ptr(), &expected[..]);
}

#[test]
fn scenario_cat_dog_cat() {
    let mut s = StringInterner::new();
    let cat = s.intern("cat").locator();
    let dog = s.intern("dog").locator();
    let cat_again = s.intern("cat").locator();
    assert_eq!(cat, cat_again);
    assert_ne!(cat, dog);
    assert_eq!(s.arena_len(), 2 * (8 + 3));
    assert!(s.intern_once("dog").is_none());
    assert_eq!(s.intern("dog").val(), "dog");
}

#[test]
fn string_intern_once_new_value() {
    let mut s = StringInterner::default();
    let h = s.intern_once("fresh").map(|h| h.locator());
    assert_eq!(h, Some(0));
    assert!(s.intern_once("fresh").is_none());
    assert_eq!(s.intern("fresh").locator(), 0);
}

#[test]
fn default_interner_is_empty() {
    let mut i = Interner::default();
    assert_eq!(i.arena_len(), 0);
    assert!(!i.is_null_terminated());
    assert_eq!(i.intern(b"q").locator(), 0);
}

#[test]
fn first_write_allocates_exactly() {
    let mut b = StackBuf::new(false);
    assert_eq!(b.reserved(), 0);
    assert_eq!(b.write_to_buf(b"abc"), 0);
    assert_eq!(b.reserved(), 11);
    assert_eq!(b.len(), 11);
}

#[test]
fn growth_doubles_to_power_of_two() {
    let mut b = StackBuf::new(false);
    b.write_to_buf(b"abc");
    // needs 13 more: max(2 * 11, 11 + 13) = 24, rounded up to 32
    assert_eq!(b.write_to_buf(b"defgh"), 11);
    assert_eq!(b.reserved(), 32);
    assert_eq!(b.len(), 24);
    // fits in what remains
    assert_eq!(b.write_to_buf(b""), 24);
    assert_eq!(b.reserved(), 32);
    // needs 8 + 40: max(2 * 32, 32 + 48) = 80, rounded up to 128
    assert_eq!(b.write_to_buf(&[1u8; 40]), 32);
    assert_eq!(b.reserved(), 128);
    // needs 8 + 1: doubling (256) wins and is a power of two already
    assert_eq!(b.write_to_buf(&[2u8; 1]), 80);
    assert_eq!(b.len(), 89);
    assert_eq!(b.reserved(), 128);
    assert_eq!(b.write_to_buf(&[3u8; 60]), 89);
    assert_eq!(b.reserved(), 256);
    assert_eq!(b.get_unchecked(11), b"defgh");
    assert_eq!(b.get_metadata(32), 40);
}

#[test]
fn null_terminated_buffer_sizes() {
    let mut b = StackBuf::new(true);
    assert_eq!(b.write_to_buf(b"ab"), 0);
    assert_eq!(b.reserved(), 11);
    assert_eq!(b.get_terminated(0), &[b'a', b'b', 0u8]);
    assert_eq!(b.get_unchecked(0), b"ab");
}

#[test]
fn next_power_of_two_values() {
    assert_eq!(next_power_of_two(0), 1);
    assert_eq!(next_power_of_two(1), 1);
    assert_eq!(next_power_of_two(2), 2);
    assert_eq!(next_power_of_two(3), 4);
    assert_eq!(next_power_of_two(24), 32);
    assert_eq!(next_power_of_two(64), 64);
    assert_eq!(next_power_of_two(65), 128);
}

#[test]
fn hash_depends_on_content() {
    assert_eq!(make_hash(b"cat"), make_hash(&b"xcat"[1..]));
    assert_ne!(make_hash(b"cat"), make_hash(b"dog"));
}

#[test]
fn large_header_values() {
    let mut i = Interner::new();
    let v = vec![9u8; 70000];
    let h = i.intern(&v);
    assert_eq!(h.val().len(), 70000);
    assert_eq!(i.arena_len(), 70008);
}
