use buddy_alloc::bits::{bit_clear, bit_isset, bit_set};
use buddy_alloc::region::Region;

const AT: usize = 0x1000;

fn bytes(region: &Region, n: usize) -> Vec<u8> {
    (0..n).map(|i| region.read(AT + i)).collect()
}

#[test]
fn bits_live_in_their_bytes() {
    let mut region = Region::new(AT, vec![0u8; 4]);
    // a bit array that starts at the second byte
    let bits = AT + 1;
    bit_set(&mut region, bits, 0);
    assert_eq!(bytes(&region, 4), vec![0, 1, 0, 0]);
    bit_set(&mut region, bits, 7);
    assert_eq!(bytes(&region, 4), vec![0, 0x81, 0, 0]);
    bit_set(&mut region, bits, 10);
    assert_eq!(bytes(&region, 4), vec![0, 0x81, 4, 0]);
    bit_set(&mut region, bits, 23);
    assert_eq!(bytes(&region, 4), vec![0, 0x81, 4, 0x80]);
    // setting a set bit changes nothing
    bit_set(&mut region, bits, 10);
    assert_eq!(bytes(&region, 4), vec![0, 0x81, 4, 0x80]);
    assert!(bit_isset(&region, bits, 0));
    assert!(!bit_isset(&region, bits, 1));
    assert!(bit_isset(&region, bits, 7));
    assert!(!bit_isset(&region, bits, 8));
    assert!(bit_isset(&region, bits, 10));
    assert!(bit_isset(&region, bits, 23));
    bit_clear(&mut region, bits, 7);
    assert_eq!(bytes(&region, 4), vec![0, 1, 4, 0x80]);
    assert!(!bit_isset(&region, bits, 7));
    bit_clear(&mut region, bits, 0);
    bit_clear(&mut region, bits, 10);
    bit_clear(&mut region, bits, 23);
    assert_eq!(bytes(&region, 4), vec![0, 0, 0, 0]);
}

#[test]
fn bit_operations_leave_the_other_bits() {
    let mut region = Region::new(AT, vec![0xffu8; 2]);
    bit_clear(&mut region, AT, 9);
    for i in 0..16 {
        assert_eq!(bit_isset(&region, AT, i), i != 9);
    }
    let mut region = Region::new(AT, vec![0u8; 2]);
    bit_set(&mut region, AT, 9);
    for i in 0..16 {
        assert_eq!(bit_isset(&region, AT, i), i == 9);
    }
}

#[test]
fn words_are_eight_bytes_low_byte_first() {
    let mut region = Region::new(AT, vec![0xeeu8; 24]);
    assert_eq!(region.start(), AT);
    assert_eq!(region.len(), 24);
    region.write_word(AT + 8, 0x0102_0304_0506_0708);
    assert_eq!(
        bytes(&region, 24),
        vec![
            0xee, 0xee, 0xee, 0xee, 0xee, 0xee, 0xee, 0xee, 8, 7, 6, 5, 4, 3, 2, 1, 0xee, 0xee,
            0xee, 0xee, 0xee, 0xee, 0xee, 0xee
        ]
    );
    assert_eq!(region.read_word(AT + 8), 0x0102_0304_0506_0708);
    region.write_word(AT + 3, usize::MAX);
    assert_eq!(region.read_word(AT + 3), usize::MAX);
    assert_eq!(region.read(AT + 2), 0xee);
    assert_eq!(region.read(AT + 11), 5);
    region.write_word(AT + 16, 0);
    assert_eq!(region.read_word(AT + 16), 0);
    region.write_word(AT, 513);
    assert_eq!(region.read(AT), 1);
    assert_eq!(region.read(AT + 1), 2);
    assert_eq!(region.read(AT + 2), 0);
}

#[test]
fn zero_clears_a_run_of_bytes() {
    let mut region = Region::new(AT, vec![7u8; 8]);
    region.zero(AT + 2, 3);
    assert_eq!(bytes(&region, 8), vec![7, 7, 0, 0, 0, 7, 7, 7]);
    region.zero(AT, 0);
    assert_eq!(bytes(&region, 8), vec![7, 7, 0, 0, 0, 7, 7, 7]);
    region.write(AT + 7, 9);
    assert_eq!(region.read(AT + 7), 9);
}
