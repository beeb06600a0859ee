use omega13::index_file::{hex_digits, index_read, index_write};

#[test]
fn writes_one_lowercase_hex_line_per_position() {
    let text = index_write(&vec![0x400000, 0x800000, 0xc00000]);
    assert_eq!(text, b"400000\n800000\nc00000\n".to_vec());
}

#[test]
fn hex_digits_have_no_leading_zeros() {
    assert_eq!(hex_digits(0), b"0".to_vec());
    assert_eq!(hex_digits(0xabc), b"abc".to_vec());
    assert_eq!(hex_digits(u64::MAX), b"ffffffffffffffff".to_vec());
}

#[test]
fn reads_back_what_was_written() {
    let lists: Vec<Vec<u64>> = vec![
        vec![],
        vec![0],
        vec![0x11000, 0x4001000, u64::MAX],
        vec![1, 1, 2, 3, 5, 8, 13],
    ];
    for list in lists {
        let text = index_write(&list);
        match index_read(&text) {
            Ok(back) => assert_eq!(back, list),
            Err(_) => panic!("round trip failed"),
        }
    }
}

#[test]
fn reads_last_line_without_newline_and_crlf() {
    match index_read(b"400000\r\n800000") {
        Ok(v) => assert_eq!(v, vec![0x400000, 0x800000]),
        Err(_) => panic!("expected positions"),
    }
}

#[test]
fn bad_line_gives_its_number_and_text() {
    match index_read(b"400000\nzz\n800000\n") {
        Err(e) => {
            assert_eq!(e.line_no, 2);
            assert_eq!(e.line, b"zz".to_vec());
        },
        Ok(_) => panic!("expected an error"),
    }
}

#[test]
fn empty_line_is_bad() {
    match index_read(b"400000\n\n") {
        Err(e) => {
            assert_eq!(e.line_no, 2);
            assert_eq!(e.line, Vec::<u8>::new());
        },
        Ok(_) => panic!("expected an error"),
    }
}
