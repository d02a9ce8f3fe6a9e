use ps3dec::iv::generate_iv;

#[test]
fn iv_of_sector_zero_is_all_zero() {
    assert_eq!(generate_iv(0), [0u8; 16]);
}

#[test]
fn iv_ends_in_the_big_endian_index() {
    let iv = generate_iv(0x0102_0304);
    assert_eq!(iv, [0, 0, 0, 0, 0, 0, 0, 0, 0, 0, 0, 0, 1, 2, 3, 4]);
}

#[test]
fn iv_of_the_largest_index() {
    let iv = generate_iv(0xFFFF_FFFF);
    assert_eq!(iv, [0, 0, 0, 0, 0, 0, 0, 0, 0, 0, 0, 0, 255, 255, 255, 255]);
}

#[test]
fn iv_takes_the_low_32_bits_only() {
    assert_eq!(generate_iv(0x1_0000_0005), generate_iv(5));
    assert_eq!(generate_iv(0xABCD_0000_0000_0100)[12..], [0, 0, 1, 0]);
}

#[test]
fn iv_is_the_same_each_time() {
    let sectors: [u64; 5] = [0, 1, 255, 256, 0x00FF_00FF];
    for sector in sectors {
        assert_eq!(generate_iv(sector), generate_iv(sector));
        let iv = generate_iv(sector);
        assert_eq!(&iv[..12], &[0u8; 12]);
        assert_eq!(&iv[12..], &(sector as u32).to_be_bytes());
    }
}
