use bptree::byte::{BinSizer, CodecError, Decodable, Encodable, FixedStr, KeyOrd, check_len};

fn round_trip_u32(x: u32) {
    let mut buf: Vec<u8> = vec![0u8; 16];
    let n = x.encode(&mut buf, 0).unwrap();
    assert_eq!(n, 4);
    let (y, m) = <u32 as Decodable>::decode(&buf, 0).unwrap();
    assert_eq!(m, 4);
    assert_eq!(x, y);
}

#[test]
fn u32_round_trip() {
    for x in [0u32, 1, 2, 255, 256, 65535, 0xdead_beef, u32::MAX] {
        round_trip_u32(x);
    }
}

#[test]
fn u32_big_endian_bytes() {
    let mut buf: Vec<u8> = vec![0u8; 4];
    0x01020304u32.encode(&mut buf, 0).unwrap();
    assert_eq!(buf, vec![1u8, 2, 3, 4]);
}

#[test]
fn u8_u16_u64_round_trip() {
    let mut buf: Vec<u8> = vec![0u8; 32];
    for x in [0u8, 1, 127, 255] {
        x.encode(&mut buf, 3).unwrap();
        let (y, n) = <u8 as Decodable>::decode(&buf, 3).unwrap();
        assert_eq!((y, n), (x, 1));
    }
    for x in [0u16, 258, u16::MAX] {
        x.encode(&mut buf, 5).unwrap();
        let (y, n) = <u16 as Decodable>::decode(&buf, 5).unwrap();
        assert_eq!((y, n), (x, 2));
    }
    for x in [0u64, 1, 1 << 40, u64::MAX] {
        x.encode(&mut buf, 8).unwrap();
        let (y, n) = <u64 as Decodable>::decode(&buf, 8).unwrap();
        assert_eq!((y, n), (x, 8));
    }
    let mut b2: Vec<u8> = vec![0u8; 2];
    0x0102u16.encode(&mut b2, 0).unwrap();
    assert_eq!(b2, vec![1u8, 2]);
}

#[test]
fn signed_round_trip() {
    let mut buf: Vec<u8> = vec![0u8; 16];
    for x in [i8::MIN, -1, 0, 1, i8::MAX] {
        x.encode(&mut buf, 0).unwrap();
        let (y, n) = <i8 as Decodable>::decode(&buf, 0).unwrap();
        assert_eq!((y, n), (x, 1));
    }
    for x in [i16::MIN, -1, 0, 300, i16::MAX] {
        x.encode(&mut buf, 0).unwrap();
        let (y, n) = <i16 as Decodable>::decode(&buf, 0).unwrap();
        assert_eq!((y, n), (x, 2));
    }
    for x in [i32::MIN, -7, 0, 7, i32::MAX] {
        x.encode(&mut buf, 0).unwrap();
        let (y, n) = <i32 as Decodable>::decode(&buf, 0).unwrap();
        assert_eq!((y, n), (x, 4));
    }
    for x in [i64::MIN, -1, 0, 1 << 40, i64::MAX] {
        x.encode(&mut buf, 0).unwrap();
        let (y, n) = <i64 as Decodable>::decode(&buf, 0).unwrap();
        assert_eq!((y, n), (x, 8));
    }
}

#[test]
fn size_types_round_trip() {
    let mut buf: Vec<u8> = vec![0u8; 8];
    for x in [0usize, 1, 4096, usize::MAX] {
        x.encode(&mut buf, 0).unwrap();
        let (y, n) = <usize as Decodable>::decode(&buf, 0).unwrap();
        assert_eq!((y, n), (x, 8));
    }
    for x in [isize::MIN, -1, 0, isize::MAX] {
        x.encode(&mut buf, 0).unwrap();
        let (y, n) = <isize as Decodable>::decode(&buf, 0).unwrap();
        assert_eq!((y, n), (x, 8));
    }
}

#[test]
fn buffer_too_short() {
    let mut buf: Vec<u8> = vec![0u8; 3];
    assert_eq!(7u32.encode(&mut buf, 0), Err(CodecError::BufferTooShort));
    assert_eq!(
        <u32 as Decodable>::decode(&buf, 0),
        Err(CodecError::BufferTooShort)
    );
    assert_eq!(7u32.encode(&mut buf, usize::MAX), Err(CodecError::BufferTooShort));
    assert!(check_len(&buf, 4).is_err());
    assert!(check_len(&buf, 3).is_ok());
}

#[test]
fn fixed_str_round_trip() {
    let s: FixedStr<50> = FixedStr::new("hello").unwrap();
    let mut buf: Vec<u8> = vec![0xffu8; 64];
    let n = s.encode(&mut buf, 2).unwrap();
    assert_eq!(n, 50);
    let (t, m) = <FixedStr<50> as Decodable>::decode(&buf, 2).unwrap();
    assert_eq!(m, 50);
    assert_eq!(s, t);
    assert_eq!(t.as_bytes().as_slice(), b"hello");
}

#[test]
fn fixed_str_utf8_round_trip() {
    let s: FixedStr<50> = FixedStr::new("飞雪连天射白鹿，笑书神侠倚碧鸳").unwrap();
    let mut buf: Vec<u8> = vec![0u8; 50];
    s.encode(&mut buf, 0).unwrap();
    let (t, _) = <FixedStr<50> as Decodable>::decode(&buf, 0).unwrap();
    assert_eq!(s, t);
    assert_eq!(
        String::from_utf8(t.as_bytes().clone()).unwrap(),
        "飞雪连天射白鹿，笑书神侠倚碧鸳"
    );
}

#[test]
fn fixed_str_full_capacity() {
    let text = "abcd";
    let s: FixedStr<4> = FixedStr::new(text).unwrap();
    let mut buf: Vec<u8> = vec![0u8; 4];
    s.encode(&mut buf, 0).unwrap();
    assert_eq!(buf, b"abcd".to_vec());
    let (t, _) = <FixedStr<4> as Decodable>::decode(&buf, 0).unwrap();
    assert_eq!(s, t);
}

#[test]
fn fixed_str_rejects_oversize() {
    assert!(FixedStr::<4>::new("abcde").is_none());
    assert!(FixedStr::<4>::new("abcd").is_some());
    assert!(FixedStr::<4>::new("a\u{0}b").is_none());
}

#[test]
fn fixed_str_order() {
    let a: FixedStr<8> = FixedStr::new("apple").unwrap();
    let b: FixedStr<8> = FixedStr::new("banana12").unwrap();
    let c: FixedStr<8> = FixedStr::new("app").unwrap();
    assert!(a.key_lt(&b));
    assert!(!b.key_lt(&a));
    assert!(c.key_lt(&a));
    assert!(a.key_eq(&a.dup()));
    assert!(!a.key_eq(&b));
}

#[test]
fn fixed_str_rejects_invalid_utf8() {
    // 0xff can never begin a UTF-8 sequence: the slot is malformed.
    let buf: Vec<u8> = vec![0xffu8; 8];
    assert_eq!(
        <FixedStr<8> as Decodable>::decode(&buf, 0),
        Err(CodecError::Malformed)
    );
}

#[test]
fn storability_check() {
    assert!(7u32.wf_check());
    assert!(FixedStr::<8>::new("abc").unwrap().wf_check());
    // A value built around the constructor can carry unstorable bytes;
    // the check exposes that.
    let bad: FixedStr<8> = FixedStr { bytes: vec![0xffu8] };
    assert!(!bad.wf_check());
}

#[test]
fn bin_sizes() {
    assert_eq!(<u8 as BinSizer>::bin_size(), 1);
    assert_eq!(<u16 as BinSizer>::bin_size(), 2);
    assert_eq!(<u32 as BinSizer>::bin_size(), 4);
    assert_eq!(<u64 as BinSizer>::bin_size(), 8);
    assert_eq!(<i64 as BinSizer>::bin_size(), 8);
    assert_eq!(<usize as BinSizer>::bin_size(), 8);
    assert_eq!(<FixedStr<50> as BinSizer>::bin_size(), 50);
}
