use ipscan::tui::clipboard::{base64, copy};

#[test]
fn base64_known_vectors() {
    assert_eq!(base64(b""), "");
    assert_eq!(base64(b"f"), "Zg==");
    assert_eq!(base64(b"fo"), "Zm8=");
    assert_eq!(base64(b"foo"), "Zm9v");
    assert_eq!(base64(b"foobar"), "Zm9vYmFy");
    assert_eq!(base64(b"AA:BB:CC:DD:EE:FF"), "QUE6QkI6Q0M6REQ6RUU6RkY=");
}

#[test]
fn every_sextet_has_its_character() {
    assert_eq!(base64(&[0xfb, 0xff, 0xbf]), "+/+/");
    assert_eq!(base64(&[0x00, 0x10, 0x83]), "ABCD");
    assert_eq!(base64(&[0xd3, 0x5d, 0xb7]), "0123");
}

#[test]
fn the_terminal_is_asked_to_copy() {
    assert_eq!(copy("foo"), "\x1b]52;c;Zm9v\x07");
}
