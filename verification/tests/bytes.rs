use easy_kernel::easy_fs::bytes::{read_u32, u32_to_bytes};

#[test]
fn words_are_little_endian() {
    assert_eq!(u32_to_bytes(0x0102_0304), vec![4, 3, 2, 1]);
    assert_eq!(read_u32(&[9, 4, 3, 2, 1], 1), 0x0102_0304);
}
