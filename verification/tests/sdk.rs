use lzma_rust2::sdk::{lzma2_dict_prop, lzma2_dict_size, sdk_outcome, Sdk};

#[test]
fn every_build_has_a_name() {
    assert_eq!(Sdk::all(false), vec![Sdk::C]);
    assert_eq!(Sdk::all(true), vec![Sdk::C, Sdk::Asm]);
    assert_eq!(Sdk::C.name(), "7-Zip (C)");
    assert_eq!(Sdk::Asm.name(), "7-Zip (asm)");
}

#[test]
fn dictionary_sizes_of_property_bytes() {
    assert_eq!(lzma2_dict_size(0), 4096);
    assert_eq!(lzma2_dict_size(1), 6144);
    assert_eq!(lzma2_dict_size(2), 8192);
    assert_eq!(lzma2_dict_size(22), 8 << 20);
    assert_eq!(lzma2_dict_size(39), 3 << 30);
    assert_eq!(lzma2_dict_size(40), u32::MAX);
    assert_eq!(lzma2_dict_size(255), u32::MAX);
}

#[test]
fn a_property_byte_names_the_least_size_that_is_enough() {
    assert_eq!(lzma2_dict_prop(0), 0);
    assert_eq!(lzma2_dict_prop(4096), 0);
    assert_eq!(lzma2_dict_prop(4097), 1);
    assert_eq!(lzma2_dict_prop(6145), 2);
    assert_eq!(lzma2_dict_prop((3 << 30) + 1), 40);
    assert_eq!(lzma2_dict_prop(u32::MAX), 40);
    for prop in 0..=40u8 {
        assert_eq!(lzma2_dict_prop(lzma2_dict_size(prop)), prop);
    }
}

#[test]
fn what_a_call_of_the_sdk_comes_to() {
    assert_eq!(sdk_outcome(0, 7, 7), Ok(()));
    assert_eq!(sdk_outcome(0, 6, 7), Err(-1));
    assert_eq!(sdk_outcome(6, 7, 7), Err(6));
}
