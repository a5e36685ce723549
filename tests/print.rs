use kernel_heap::print::hexdump_bytes;

fn text(b: &[u8]) -> String {
    String::from_utf8(hexdump_bytes(b)).unwrap()
}

#[test]
fn empty_input_dumps_nothing() {
    assert_eq!(text(&[]), "");
}

#[test]
fn short_line_is_padded_to_full_width() {
    let expected = format!("00000000: 41 42 43 {}|ABC|\n", "   ".repeat(13));
    assert_eq!(text(b"ABC"), expected);
}

#[test]
fn full_line_shows_unprintable_bytes_as_dots() {
    let bytes: Vec<u8> = (0x00..0x10).collect();
    assert_eq!(
        text(&bytes),
        "00000000: 00 01 02 03 04 05 06 07 08 09 0A 0B 0C 0D 0E 0F |................|\n"
    );
}

#[test]
fn offsets_count_up_by_sixteen() {
    let mut bytes: Vec<u8> = b"Hello, world! ~\x7f".to_vec();
    bytes.push(0x7f);
    bytes.push(b' ');
    let expected = format!(
        "00000000: 48 65 6C 6C 6F 2C 20 77 6F 72 6C 64 21 20 7E 7F |Hello, world! ~.|\n00000010: 7F 20 {}|\u{7f} |\n",
        "   ".repeat(14)
    );
    assert_eq!(text(&bytes), expected);
}

#[test]
fn exact_multiple_of_sixteen_has_no_short_line() {
    let bytes = vec![b'z'; 32];
    let t = text(&bytes);
    assert_eq!(t.lines().count(), 2);
    assert!(t.starts_with("00000000: 7A"));
    assert!(t.contains("\n00000010: 7A"));
    assert!(t.ends_with("|zzzzzzzzzzzzzzzz|\n"));
}
