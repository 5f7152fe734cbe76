use presence_sync::codec::{format_client_id, parse_client_id};

fn text_of(id: u128) -> String {
    String::from_utf8(format_client_id(id)).unwrap()
}

#[test]
fn format_is_the_canonical_grouping() {
    assert_eq!(
        text_of(0x0123_4567_89ab_cdef_0123_4567_89ab_cdef),
        "01234567-89ab-cdef-0123-456789abcdef"
    );
    assert_eq!(text_of(0), "00000000-0000-0000-0000-000000000000");
    assert_eq!(text_of(u128::MAX), "ffffffff-ffff-ffff-ffff-ffffffffffff");
    assert_eq!(text_of(1), "00000000-0000-0000-0000-000000000001");
}

#[test]
fn format_agrees_with_the_uuid_crate() {
    for id in [0u128, 1, 0xdead_beef, u128::MAX, 0x0123_4567_89ab_cdef_0123_4567_89ab_cdef] {
        assert_eq!(text_of(id), uuid::Uuid::from_u128(id).to_string());
    }
}

#[test]
fn parse_inverts_format() {
    for id in [0u128, 1, 16, 255, 0xdead_beef, u128::MAX, u128::MAX - 1] {
        assert_eq!(parse_client_id(&format_client_id(id)), Some(id));
    }
}

#[test]
fn parse_accepts_only_the_canonical_form() {
    assert_eq!(
        parse_client_id(b"01234567-89ab-cdef-0123-456789abcdef"),
        Some(0x0123_4567_89ab_cdef_0123_4567_89ab_cdef)
    );
    // Wrong length.
    assert_eq!(parse_client_id(b""), None);
    assert_eq!(parse_client_id(b"01234567-89ab-cdef-0123-456789abcde"), None);
    assert_eq!(parse_client_id(b"01234567-89ab-cdef-0123-456789abcdef0"), None);
    // Uppercase digits are not canonical.
    assert_eq!(parse_client_id(b"01234567-89AB-cdef-0123-456789abcdef"), None);
    // A dash out of place.
    assert_eq!(parse_client_id(b"0123456-789ab-cdef-0123-456789abcdef"), None);
    assert_eq!(parse_client_id(b"012345678-9ab-cdef-0123-456789abcdef"), None);
    // A non-hexadecimal character.
    assert_eq!(parse_client_id(b"0123456g-89ab-cdef-0123-456789abcdef"), None);
    // No dashes at all.
    assert_eq!(parse_client_id(b"0123456789abcdef0123456789abcdef0123"), None);
}
