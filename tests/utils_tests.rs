use bloomheap::utils::{get_single_bit_mask, set_multi_bitmask};

#[test]
fn bit_mask_functions() {
    assert_eq!(get_single_bit_mask(0), (0, 0x80));
    assert_eq!(get_single_bit_mask(21), (2, 0x04));

    let mut mask = vec![0u8; 4];

    let bits = [2, 5, 11, 21, 22, 25, 31];

    set_multi_bitmask(&mut mask, &bits);

    assert_eq!(&mask, &[0x24, 0x10, 0x06, 0x41]);
}

#[test]
fn bit_mask_byte_edges() {
    assert_eq!(get_single_bit_mask(7), (0, 0x01));
    assert_eq!(get_single_bit_mask(8), (1, 0x80));
    assert_eq!(get_single_bit_mask(15), (1, 0x01));
}

#[test]
fn set_multi_bitmask_keeps_bits_and_repeats() {
    let mut mask = vec![0x01u8, 0x00];
    set_multi_bitmask(&mut mask, &[0, 0, 9]);
    assert_eq!(mask, vec![0x81, 0x40]);
    set_multi_bitmask(&mut mask, &[]);
    assert_eq!(mask, vec![0x81, 0x40]);
}
