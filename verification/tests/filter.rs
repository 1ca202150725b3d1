use lzma_rust2::filter::StreamFilter;
use lzma_rust2::{Error, FilterConfig, FilterType};

fn config(filter_type: FilterType, property: u32) -> FilterConfig {
    FilterConfig {
        filter_type,
        property,
    }
}

/// Runs a filter over `data` with `step` bytes more at a time, the way a stream
/// does.
fn run(config: FilterConfig, data: &[u8], step: usize) -> Vec<u8> {
    let mut filter = StreamFilter::new(&config).unwrap();
    let mut buf = Vec::new();
    for piece in data.chunks(step) {
        let start = buf.len() - filter.held_back();
        buf.extend_from_slice(piece);
        filter.decode(&mut buf[start..]);
    }
    filter.finish();
    assert_eq!(filter.held_back(), 0);
    buf
}

#[test]
fn delta_adds_the_byte_before() {
    let data = [1u8, 1, 1, 1, 255, 0, 10];
    for step in 1..=7 {
        assert_eq!(
            run(config(FilterType::Delta, 1), &data, step),
            [1, 2, 3, 4, 3, 3, 13]
        );
        assert_eq!(
            run(config(FilterType::Delta, 3), &data, step),
            [1, 1, 1, 2, 0, 1, 12]
        );
    }
}

#[test]
fn arm_branches_become_relative() {
    // At 0 and at 8: a branch to the absolute address 0x40, and at 4 none.
    let data = [0x10, 0, 0, 0xEB, 1, 2, 3, 4, 0x10, 0, 0, 0xEB, 9, 9];
    let expected = [0x0E, 0, 0, 0xEB, 1, 2, 3, 4, 0x0C, 0, 0, 0xEB, 9, 9];
    for step in 1..=14 {
        assert_eq!(run(config(FilterType::BcjArm, 0), &data, step), expected);
    }
    // From position 4 on.
    let expected = [0x0D, 0, 0, 0xEB, 1, 2, 3, 4, 0x0B, 0, 0, 0xEB, 9, 9];
    assert_eq!(run(config(FilterType::BcjArm, 4), &data, 5), expected);
}

#[test]
fn ppc_branches_become_relative() {
    let data = [0, 0, 0, 0, 0x48, 0, 1, 0x01, 0x4B, 0, 0, 0x05];
    let expected = [0, 0, 0, 0, 0x48, 0, 0, 0xFD, 0x4A, 0xFF, 0xFF, 0xFD];
    for step in 1..=12 {
        assert_eq!(run(config(FilterType::BcjPpc, 0), &data, step), expected);
    }
}

#[test]
fn sparc_branches_become_relative() {
    let data = [0x01, 0, 0, 0, 0x40, 0, 0, 0x05, 0x40, 0, 0, 0];
    let expected = [0x01, 0, 0, 0, 0x40, 0, 0, 0x04, 0x7F, 0xFF, 0xFF, 0xFE];
    for step in 1..=12 {
        assert_eq!(run(config(FilterType::BcjSparc, 0), &data, step), expected);
    }
}

#[test]
fn what_is_no_filter_is_refused() {
    let refused = |c: FilterConfig| StreamFilter::new(&c).err();
    assert_eq!(
        refused(config(FilterType::Lzma2, 0)),
        Some(Error::NotAPreFilter)
    );
    assert_eq!(
        refused(config(FilterType::Delta, 0)),
        Some(Error::FilterProperty)
    );
    assert_eq!(
        refused(config(FilterType::Delta, 257)),
        Some(Error::FilterProperty)
    );
    assert_eq!(
        refused(config(FilterType::BcjArm, 2)),
        Some(Error::FilterProperty)
    );
    assert!(refused(FilterConfig::new(FilterType::Delta, 256)).is_none());
}
