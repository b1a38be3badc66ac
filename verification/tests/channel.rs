use sigil_phone::channel::{channel_from_hex, hex};

#[test]
fn a_conversation_reads_back_from_its_text() {
    let mut c = [0u8; 32];
    for (i, b) in c.iter_mut().enumerate() {
        *b = (i as u8).wrapping_mul(37);
    }
    let text = hex(&c);
    assert_eq!(text.len(), 64);
    assert_eq!(channel_from_hex(&text), Some(c));
}

#[test]
fn hex_is_lower_case_most_significant_first() {
    let mut c = [0u8; 32];
    c[0] = 0xab;
    c[31] = 0x0f;
    let text = hex(&c);
    assert!(text.starts_with("ab00"));
    assert!(text.ends_with("000f"));
}

#[test]
fn upper_case_reads_too_and_anything_else_does_not() {
    let upper = "AB".repeat(32);
    assert_eq!(channel_from_hex(&upper), Some([0xab; 32]));
    assert_eq!(channel_from_hex("ab"), None);
    assert_eq!(channel_from_hex(&"zz".repeat(32)), None);
    assert_eq!(channel_from_hex(&"a".repeat(65)), None);
}

#[test]
fn only_hex_digits_are_a_channel() {
    assert_eq!(channel_from_hex(&"+1".repeat(32)), None);
    assert_eq!(channel_from_hex(&format!("+f{}", "00".repeat(31))), None);
    assert_eq!(channel_from_hex(&format!(" f{}", "00".repeat(31))), None);
    // Sixty-four bytes that are not sixty-four characters: never a channel,
    // and no panic on a split character.
    assert_eq!(channel_from_hex(&format!("é{}", "0".repeat(62))), None);
    let mut want = [0u8; 32];
    want[0] = 0x0f;
    assert_eq!(channel_from_hex(&format!("0F{}", "00".repeat(31))), Some(want));
}
