use chat_relay::client::{clock_label, digest_hex, sha256_username};
use chat_relay::message::ChatMessage;

#[test]
fn sha256_of_abc_in_hex() {
    assert_eq!(
        sha256_username("abc"),
        "ba7816bf8f01cfea414140de5dae2223b00361a396177a9cb410ff61f20015ad"
    );
}

#[test]
fn sha256_of_empty_name_in_hex() {
    assert_eq!(
        sha256_username(""),
        "e3b0c44298fc1c149afbf4c8996fb92427ae41e4649b934ca495991b7852b855"
    );
}

#[test]
fn digest_hex_writes_two_lower_case_digits_per_byte() {
    assert_eq!(digest_hex(&[0x00, 0xff, 0x1a, 0x09]), "00ff1a09");
    assert_eq!(digest_hex(&[]), "");
}

#[test]
fn clock_label_is_not_padded() {
    assert_eq!(clock_label(9, 5), "9:5");
    assert_eq!(clock_label(0, 0), "0:0");
    assert_eq!(clock_label(13, 45), "13:45");
    assert_eq!(clock_label(23, 59), "23:59");
}

#[test]
fn stamped_message_carries_the_label() {
    let m = ChatMessage::stamped("alice".to_string(), "hi".to_string(), 9, 5);
    assert_eq!(m.from, "alice");
    assert_eq!(m.msg, "hi");
    assert_eq!(m.time, "9:5");
}
