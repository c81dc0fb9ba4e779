use mfat32::utils::{u16_from_le_bytes, u16_to_le_bytes, u32_from_le_bytes, u32_to_le_bytes};

#[test]
fn test_u16_from_le_bytes() {
    let bytes = [0x01, 0x02];
    assert_eq!(0x0201, u16_from_le_bytes(&bytes));
    let bytes = [0x01, 0x02, 0x03];
    assert_eq!(0x0201, u16_from_le_bytes(&bytes));
}

#[test]
#[should_panic]
fn test_u16_from_le_bytes_length_1() {
    let byte = [0x01];
    assert_eq!(0x01, u16_from_le_bytes(&byte));
}

#[test]
fn test_u32_from_le_bytes() {
    let bytes = [0x01, 0x02, 0x03, 0x04];
    assert_eq!(0x04030201, u32_from_le_bytes(&bytes));
    let bytes = [0x01, 0x02, 0x03, 0x04, 0x05];
    assert_eq!(0x04030201, u32_from_le_bytes(&bytes));
}

#[test]
#[should_panic]
fn test_u32_from_le_bytes_length_2() {
    let bytes = [0x01, 0x02, 0x03];
    u32_from_le_bytes(&bytes);
}

#[test]
fn test_le_round_trips() {
    assert_eq!(u16_to_le_bytes(0xBEEF), vec![0xEF, 0xBE]);
    assert_eq!(u16_from_le_bytes(&u16_to_le_bytes(0x1234)), 0x1234);
    assert_eq!(u32_to_le_bytes(0x0FFFFFF8), vec![0xF8, 0xFF, 0xFF, 0x0F]);
    assert_eq!(u32_from_le_bytes(&u32_to_le_bytes(0xDEADBEEF)), 0xDEADBEEF);
}
