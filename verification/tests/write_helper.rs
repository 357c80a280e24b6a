use turmoil_wasm::net::WriteHelper;

#[test]
fn write_fits_and_advances() {
    let mut buf = [0u8; 8];
    let mut w = WriteHelper::new(&mut buf);
    assert!(w.write_str("abc").is_ok());
    let rest = w.into_raw();
    assert_eq!(rest.len(), 5);
    assert_eq!(&buf, b"abc\0\0\0\0\0");
}

#[test]
fn write_truncates_to_room() {
    let mut buf = [0u8; 4];
    let mut w = WriteHelper::new(&mut buf);
    assert!(w.write_str("hello").is_ok());
    let rest = w.into_raw();
    assert_eq!(rest.len(), 0);
    assert_eq!(&buf, b"hell");
}

#[test]
fn consecutive_writes_fill_like_one() {
    let mut a = [0u8; 6];
    let mut w = WriteHelper::new(&mut a);
    assert!(w.write_str("abcd").is_ok());
    assert!(w.write_str("efgh").is_ok());
    assert_eq!(w.into_raw().len(), 0);

    let mut b = [0u8; 6];
    let mut w = WriteHelper::new(&mut b);
    assert!(w.write_str("abcdefgh").is_ok());
    assert_eq!(w.into_raw().len(), 0);
    assert_eq!(a, b);
    assert_eq!(&a, b"abcdef");
}

#[test]
fn write_into_empty_buffer_writes_nothing() {
    let mut buf: [u8; 0] = [];
    let mut w = WriteHelper::new(&mut buf);
    assert!(w.write_str("x").is_ok());
    assert_eq!(w.into_raw().len(), 0);
}

#[test]
fn write_empty_text_changes_nothing() {
    let mut buf = [7u8; 3];
    let mut w = WriteHelper::new(&mut buf);
    assert!(w.write_str("").is_ok());
    assert_eq!(w.into_raw().len(), 3);
    assert_eq!(buf, [7u8; 3]);
}

#[test]
fn write_multibyte_text_at_boundary() {
    // "é" is two bytes; a cut after it falls between characters.
    let mut buf = [0u8; 3];
    let mut w = WriteHelper::new(&mut buf);
    assert!(w.write_str("éa!").is_ok());
    assert_eq!(w.into_raw().len(), 0);
    assert_eq!(&buf, "éa".as_bytes());
}

#[test]
fn tail_left_untouched_after_write() {
    let mut buf = [9u8; 5];
    let mut w = WriteHelper::new(&mut buf);
    assert!(w.write_str("ab").is_ok());
    let rest = w.into_raw();
    assert_eq!(rest, &[9u8, 9, 9]);
    rest[0] = 1;
    assert_eq!(buf, [b'a', b'b', 1, 9, 9]);
}

#[test]
fn write_cuts_inside_a_character() {
    // "→" is three bytes; only the first fits.
    let mut buf = [0u8; 1];
    let mut w = WriteHelper::new(&mut buf);
    assert!(w.write_str("→").is_ok());
    assert_eq!(w.into_raw().len(), 0);
    assert_eq!(buf, [0xE2]);
}

#[test]
fn many_writes_leave_the_unwritten_tail() {
    let mut buf = [0u8; 10];
    let mut w = WriteHelper::new(&mut buf);
    for text in ["ab", "", "cde", "fg"] {
        assert!(w.write_str(text).is_ok());
    }
    let rest = w.into_raw();
    assert_eq!(rest.len(), 3);
    assert_eq!(&buf[..7], b"abcdefg");
}

#[test]
fn into_raw_without_writes_is_whole_buffer() {
    let mut buf = [1u8, 2, 3];
    let w = WriteHelper::new(&mut buf);
    let rest = w.into_raw();
    assert_eq!(rest, &[1u8, 2, 3]);
}
