use msredis::bytestring::ByteString;

#[test]
fn test_new() {
    let bs = ByteString::new("hello, world");
    assert_eq!(
        bs.as_bytes(),
        vec![104, 101, 108, 108, 111, 44, 32, 119, 111, 114, 108, 100].as_slice()
    );
}

#[test]
fn test_new_from() {
    let bs = ByteString::new("hello, world");
    let bs2 = ByteString::new_from(&bs);
    assert_eq!(bs, bs2);
}

#[test]
fn test_new_from_bytes() {
    let buf: Vec<u8> = vec![104, 101, 108, 108, 111, 44, 32, 119, 111, 114, 108, 100];
    let bs = ByteString::new("hello, world");
    let bs2 = ByteString::new_from_bytes(&buf);
    assert_eq!(bs, bs2);
}

#[test]
fn test_dup() {
    let bs = ByteString::new("hello, world");
    let bs_dup = bs.dup();
    assert_eq!(bs.as_bytes(), bs_dup.as_bytes());
}

#[test]
fn test_grow_zero() {
    let mut bs = ByteString::new("");
    bs.grow_zero(8);
    assert_eq!(bs.as_bytes(), vec![0; 8].as_slice());
}

#[test]
fn test_grow_zero_never_truncates() {
    let mut bs = ByteString::new("abc");
    bs.grow_zero(2);
    assert_eq!(bs.as_bytes(), b"abc");
    bs.grow_zero(3);
    assert_eq!(bs.as_bytes(), b"abc");
    bs.grow_zero(5);
    assert_eq!(bs.as_bytes(), b"abc\x00\x00");
    assert_eq!(bs.len(), 5);
    assert!(bs.capacity() >= 5);
}

#[test]
fn test_cat() {
    let mut a = ByteString::new("hello,");
    let another = ByteString::new(" world");
    let target = ByteString::new("hello, world");
    a.cat(&another);
    assert_eq!(a, target);
    assert_eq!(a.as_bytes(), target.as_bytes());
}

#[test]
fn test_range() {
    let target = ByteString::new("hello, world");
    let mut a = ByteString::new("aahello, world");
    let target2 = ByteString::new("ello, worl");
    a.range(2, -1);
    assert_eq!(target.as_bytes(), a.as_bytes());
    a.range(20, -1);
    assert_eq!(target.as_bytes(), a.as_bytes());
    a.range(1, -2);
    assert_eq!(target2.as_bytes(), a.as_bytes());
}

#[test]
fn test_range_crossed_and_empty() {
    let mut a = ByteString::new("abcdef");
    a.range(4, 2);
    assert_eq!(a.as_bytes(), b"");
    let mut b = ByteString::new("");
    b.range(3, -1);
    assert_eq!(b.as_bytes(), b"");
    let mut c = ByteString::new("abcdef");
    c.range(-100, 100);
    assert_eq!(c.as_bytes(), b"abcdef");
}

#[test]
fn test_clear() {
    let mut target = ByteString::new("hello, world");
    target.clear();
    assert_eq!(target.len(), 0);
}

#[test]
fn test_trim() {
    let bs = ByteString::new("hhheeello, worlllddd");
    let cset: Vec<u8> = vec![104, 101, 108, 100]; // h, e, l, d
    let x = bs.trim(&cset);
    let y = ByteString::new("o, wor");
    assert_eq!(x.as_bytes(), y.as_bytes());
}

#[test]
fn test_trim_all_and_empty() {
    let bs = ByteString::new("aaaa");
    let x = bs.trim(b"a");
    assert_eq!(x.as_bytes(), b"");
    let empty = ByteString::new("");
    let y = empty.trim(b"a");
    assert_eq!(y.as_bytes(), b"");
}
