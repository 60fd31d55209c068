use actionkv::ethernet::MacAddress;
use actionkv::screen::{Color, Cursor};

#[test]
fn cursor_color_packs_both_nibbles() {
    let cursor = Cursor { position: 0, foreground: Color::White, background: Color::Red };
    assert_eq!(cursor.color(), 0x4F);

    let panic_screen = Cursor { position: 0, foreground: Color::Black, background: Color::Yellow };
    assert_eq!(panic_screen.color(), 0xE0);

    let plain = Cursor { position: 0, foreground: Color::Gray, background: Color::Black };
    assert_eq!(plain.color(), 0x07);
}

#[test]
fn new_mac_addresses_are_local_unicast() {
    for _ in 0..64 {
        let mac = MacAddress::new();
        assert_eq!(mac.0[0] & 0x02, 0x02, "locally-administered bit must be set");
        assert_eq!(mac.0[0] & 0x01, 0x00, "multicast bit must be clear");
    }
}
