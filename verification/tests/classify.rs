use ps3dec::classify::is_encrypted;
use ps3dec::region::Region;

fn sector_of(byte: u8) -> Vec<u8> {
    vec![byte; 2048]
}

#[test]
fn a_sector_of_zeros_is_never_encrypted() {
    let regions = [Region { start: 0, end: 100 }];
    assert!(!is_encrypted(&regions, 0, &sector_of(0)));
    assert!(!is_encrypted(&regions, 50, &sector_of(0)));
    assert!(!is_encrypted(&regions, 500, &sector_of(0)));
    assert!(!is_encrypted(&[], 0, &sector_of(0)));
}

#[test]
fn a_sector_outside_every_region_is_not_encrypted() {
    let regions = [Region { start: 10, end: 20 }, Region { start: 30, end: 40 }];
    assert!(!is_encrypted(&regions, 9, &sector_of(1)));
    assert!(!is_encrypted(&regions, 20, &sector_of(1)));
    assert!(!is_encrypted(&regions, 29, &sector_of(1)));
    assert!(!is_encrypted(&regions, 40, &sector_of(1)));
    assert!(!is_encrypted(&[], 0, &sector_of(1)));
}

#[test]
fn a_sector_inside_a_region_is_encrypted() {
    let regions = [Region { start: 10, end: 20 }, Region { start: 30, end: 40 }];
    assert!(is_encrypted(&regions, 10, &sector_of(1)));
    assert!(is_encrypted(&regions, 19, &sector_of(1)));
    assert!(is_encrypted(&regions, 30, &sector_of(0xFF)));
    assert!(is_encrypted(&regions, 39, &sector_of(0xFF)));
}

#[test]
fn one_byte_that_is_not_zero_is_enough() {
    let regions = [Region { start: 0, end: 1 }];
    let mut first = sector_of(0);
    first[0] = 1;
    let mut last = sector_of(0);
    last[2047] = 1;
    assert!(is_encrypted(&regions, 0, &first));
    assert!(is_encrypted(&regions, 0, &last));
}

#[test]
fn every_region_counts_whatever_its_place_in_the_table() {
    let regions = [
        Region { start: 0, end: 10 },
        Region { start: 10, end: 20 },
        Region { start: 20, end: 30 },
    ];
    assert!(is_encrypted(&regions, 5, &sector_of(1)));
    assert!(is_encrypted(&regions, 15, &sector_of(1)));
    assert!(is_encrypted(&regions, 25, &sector_of(1)));
}

#[test]
fn a_region_that_ends_before_it_starts_holds_nothing() {
    let regions = [Region { start: 7, end: 3 }, Region { start: 5, end: 5 }];
    for sector in 0..10u64 {
        assert!(!is_encrypted(&regions, sector, &sector_of(1)));
    }
}

#[test]
fn no_bytes_are_all_zero() {
    let regions = [Region { start: 0, end: 10 }];
    assert!(!is_encrypted(&regions, 1, &[]));
}

#[test]
fn indexes_beyond_32_bits_are_compared_in_full() {
    let regions = [Region { start: 1, end: 2 }];
    assert!(!is_encrypted(&regions, 0x1_0000_0001, &sector_of(1)));
}
