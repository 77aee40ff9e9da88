use keymap_optimization::twiddler::{char_to_usb, usb_char, Node, USB_HID_COUNT};

#[test]
fn index_usb_hid_conversion() {
    // the conversion functions are inverses of each other
    for i in 0..USB_HID_COUNT {
        let (shifted, usb) = Node::idx_to_usb(i).unwrap();
        let idx = Node::usb_to_idx(shifted, usb).unwrap();
        assert_eq!(i, idx);
    }
}

#[test]
fn usb_char_table_round_trip() {
    // every table entry prints to a character that maps back to it
    for i in 0..USB_HID_COUNT {
        let (shifted, usb) = Node::idx_to_usb(i).unwrap();
        let c = usb_char(shifted, usb);
        let back = char_to_usb(c).unwrap();
        assert_eq!(back, (shifted, usb));
    }
}

#[test]
fn out_of_band_scancode_is_rejected() {
    // a scancode outside the three bands comes back as OutOfRange
    let r = Node::usb_to_idx(false, 0x29);
    assert!(matches!(
        r,
        Err(keymap_optimization::twiddler::DecodeError::OutOfRange(0x29))
    ));
}
