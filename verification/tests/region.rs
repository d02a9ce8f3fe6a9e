use ps3dec::region::{build_header, extract_regions, FormatError, Region};

fn header_with(count: u32, entries: &[(u32, u32)]) -> Vec<u8> {
    let mut header: Vec<u8> = vec![0u8; 4096];
    header[0..4].copy_from_slice(&count.to_be_bytes());
    for (i, (start, end)) in entries.iter().enumerate() {
        let at: usize = 4 + 8 * i;
        header[at..at + 4].copy_from_slice(&start.to_be_bytes());
        header[at + 4..at + 8].copy_from_slice(&end.to_be_bytes());
    }
    header
}

#[test]
fn one_region() {
    let header = header_with(1, &[(1, 2)]);
    assert_eq!(extract_regions(&header), Ok(vec![Region { start: 1, end: 2 }]));
}

#[test]
fn a_count_of_two_gives_three_entries() {
    let header = header_with(2, &[(0, 0x10), (0x10, 0x0200_0000), (0x0200_0000, 0xFFFF_FFFF)]);
    assert_eq!(
        extract_regions(&header),
        Ok(vec![
            Region { start: 0, end: 0x10 },
            Region { start: 0x10, end: 0x0200_0000 },
            Region { start: 0x0200_0000, end: 0xFFFF_FFFF },
        ])
    );
}

#[test]
fn entries_are_read_big_endian() {
    let mut header: Vec<u8> = vec![0u8; 4096];
    header[3] = 1;
    header[4..12].copy_from_slice(&[0x01, 0x02, 0x03, 0x04, 0xA0, 0xB0, 0xC0, 0xD0]);
    assert_eq!(
        extract_regions(&header),
        Ok(vec![Region { start: 0x0102_0304, end: 0xA0B0_C0D0 }])
    );
}

#[test]
fn entries_come_in_header_order_unsorted_and_overlapping() {
    let header = header_with(2, &[(50, 60), (10, 55), (7, 3)]);
    assert_eq!(
        extract_regions(&header),
        Ok(vec![
            Region { start: 50, end: 60 },
            Region { start: 10, end: 55 },
            Region { start: 7, end: 3 },
        ])
    );
}

#[test]
fn bytes_behind_the_table_are_not_looked_at() {
    let mut header = header_with(1, &[(1, 2)]);
    for byte in header[12..].iter_mut() {
        *byte = 0xEE;
    }
    header.extend_from_slice(&[0x55; 100]);
    assert_eq!(extract_regions(&header), Ok(vec![Region { start: 1, end: 2 }]));
}

#[test]
fn a_short_header_is_refused() {
    assert_eq!(extract_regions(&[]), Err(FormatError::HeaderTooShort));
    assert_eq!(extract_regions(&vec![0u8; 4095]), Err(FormatError::HeaderTooShort));
    let mut short = header_with(1, &[(1, 2)]);
    short.truncate(4095);
    assert_eq!(extract_regions(&short), Err(FormatError::HeaderTooShort));
}

#[test]
fn a_count_of_zero_is_refused() {
    assert_eq!(extract_regions(&vec![0u8; 4096]), Err(FormatError::NoRegions));
}

#[test]
fn a_table_that_runs_past_the_header_is_refused() {
    assert_eq!(extract_regions(&header_with(257, &[])), Err(FormatError::TableTooLong));
    assert_eq!(extract_regions(&header_with(0xFFFF_FFFF, &[])), Err(FormatError::TableTooLong));
    assert_eq!(extract_regions(&header_with(0x8000_0000, &[])), Err(FormatError::TableTooLong));
}

#[test]
fn the_largest_table_fills_the_header() {
    let entries: Vec<(u32, u32)> = (0..511u32).map(|i| (i, i + 1)).collect();
    let header = header_with(256, &entries);
    let regions = extract_regions(&header).unwrap();
    assert_eq!(regions.len(), 511);
    assert_eq!(regions[0], Region { start: 0, end: 1 });
    assert_eq!(regions[510], Region { start: 510, end: 511 });
}

#[test]
fn a_built_header_has_count_entries_and_zeros() {
    let header = build_header(&[Region { start: 1, end: 2 }]).unwrap();
    assert_eq!(header.len(), 4096);
    assert_eq!(&header[..12], &[0, 0, 0, 1, 0, 0, 0, 1, 0, 0, 0, 2]);
    assert!(header[12..].iter().all(|&b| b == 0));
}

#[test]
fn a_built_header_reads_back() {
    let regions = vec![
        Region { start: 0, end: 0x400 },
        Region { start: 0x400, end: 0x0012_3456 },
        Region { start: 0x0012_3456, end: 0xFFFF_FFFF },
    ];
    let header = build_header(&regions).unwrap();
    assert_eq!(&header[..4], &[0, 0, 0, 2]);
    assert_eq!(extract_regions(&header), Ok(regions));
}

#[test]
fn a_read_header_builds_back() {
    let header = header_with(3, &[(1, 2), (3, 4), (5, 6), (7, 8), (0xDEAD_BEEF, 0x0BAD_F00D)]);
    let regions = extract_regions(&header).unwrap();
    assert_eq!(build_header(&regions), Some(header));
}

#[test]
fn what_no_header_can_carry_is_not_built() {
    assert_eq!(build_header(&[]), None);
    let pair = [Region { start: 0, end: 1 }, Region { start: 1, end: 2 }];
    assert_eq!(build_header(&pair), None);
    assert_eq!(build_header(&[Region { start: 0, end: 0x1_0000_0000 }]), None);
    assert_eq!(build_header(&[Region { start: 0x1_0000_0000, end: 0 }]), None);
    let many: Vec<Region> = (0..513u64).map(|i| Region { start: i, end: i + 1 }).collect();
    assert_eq!(build_header(&many), None);
}
