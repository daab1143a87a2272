use binary_analysis::cli::Parameters;
use binary_analysis::config::Config;
use binary_analysis::endiannes::Endiannes;
use binary_analysis::extract_instructions::{
    extract_potential_instructions_from_binary, iter_potential_instructions, FromBytes,
};

fn parameters(instr_len: u64, endiannes: Endiannes) -> Parameters {
    Parameters {
        file_path: String::from("binary"),
        instr_len,
        call_opcode_len: Some(4),
        endiannes,
        ret_opcode_index: None,
        call_opcode_index: None,
        call_operand_index: None,
        file_offset: None,
        pc_offset: 0,
        pc_inc: None,
        left_shift_call_operand: 0,
        nr_cand: 3,
        call_search_range: vec![0, 20],
        ret_search_range: vec![0, 15],
        ret_func_dist: 5,
        parallell: false,
        include_instructions: false,
        is_absolute_addressing: false,
    }
}

#[test]
fn words_of_each_width_are_read_in_both_orders() {
    let bytes: [u8; 8] = [0x01, 0x23, 0x45, 0x67, 0x89, 0xab, 0xcd, 0xef];
    assert_eq!(<u8 as FromBytes>::from_be_bytes_mine(&bytes[7..]), 0xef);
    assert_eq!(<u8 as FromBytes>::from_le_bytes_mine(&bytes[7..]), 0xef);
    assert_eq!(<u16 as FromBytes>::from_be_bytes_mine(&bytes[6..]), 0xcdef);
    assert_eq!(<u16 as FromBytes>::from_le_bytes_mine(&bytes[6..]), 0xefcd);
    assert_eq!(<u32 as FromBytes>::from_be_bytes_mine(&bytes[4..]), 0x89ab_cdef);
    assert_eq!(<u32 as FromBytes>::from_le_bytes_mine(&bytes[4..]), 0xefcd_ab89);
    assert_eq!(<u64 as FromBytes>::from_be_bytes_mine(&bytes), 0x0123_4567_89ab_cdef);
    assert_eq!(<u64 as FromBytes>::from_le_bytes_mine(&bytes), 0xefcd_ab89_6745_2301);
    assert_eq!(<u8 as FromBytes>::from_bytes(&bytes[..1], &Endiannes::Big), 0x01);
    assert_eq!(<u16 as FromBytes>::from_bytes(&bytes[..2], &Endiannes::Big), 0x0123);
    assert_eq!(<u16 as FromBytes>::from_bytes(&bytes[..2], &Endiannes::Little), 0x2301);
    assert_eq!(<u32 as FromBytes>::from_bytes(&bytes[..4], &Endiannes::Big), 0x0123_4567);
    assert_eq!(<u32 as FromBytes>::from_bytes(&bytes[..4], &Endiannes::Unknown), 0x6745_2301);
    assert_eq!(<u64 as FromBytes>::from_bytes(&bytes, &Endiannes::Big), 0x0123_4567_89ab_cdef);
    assert_eq!(<u64 as FromBytes>::from_bytes(&bytes, &Endiannes::Little), 0xefcd_ab89_6745_2301);
    assert_eq!(<u32 as FromBytes>::from_be_bytes_mine(&[0xff; 4]), u32::MAX);
    assert_eq!(<u16 as FromBytes>::from_le_bytes_mine(&[0xff; 2]), u16::MAX);
}

#[test]
fn a_binary_is_extracted_into_typed_words() {
    let bytes: Vec<u8> = vec![0x12, 0x34, 0x56, 0x78, 0x9a, 0xbc, 0xde, 0xf0, 0xff];
    assert_eq!(
        extract_potential_instructions_from_binary::<u32>(&bytes, &Endiannes::Big, &32),
        vec![0x1234_5678u32, 0x9abc_def0]
    );
    assert_eq!(
        extract_potential_instructions_from_binary::<u32>(&bytes, &Endiannes::Little, &32),
        vec![0x7856_3412u32, 0xf0de_bc9a]
    );
    assert_eq!(
        extract_potential_instructions_from_binary::<u16>(&bytes, &Endiannes::Big, &16),
        vec![0x1234u16, 0x5678, 0x9abc, 0xdef0]
    );
    assert_eq!(
        extract_potential_instructions_from_binary::<u64>(&bytes, &Endiannes::Little, &64),
        vec![0xf0de_bc9a_7856_3412u64]
    );
    assert_eq!(
        extract_potential_instructions_from_binary::<u8>(&bytes, &Endiannes::Little, &8),
        bytes
    );
    assert!(
        extract_potential_instructions_from_binary::<u64>(&bytes[..7], &Endiannes::Big, &64)
            .is_empty()
    );
}

#[test]
fn every_alignment_is_extracted_for_every_byte_order() {
    let bytes: Vec<u8> = (1..=9u8).collect();
    let config = Config::get(&parameters(16, Endiannes::Unknown), bytes.len()).unwrap();
    let streams = iter_potential_instructions::<u16>(&bytes, &config);
    assert_eq!(
        streams,
        vec![
            vec![0x0102u16, 0x0304, 0x0506, 0x0708],
            vec![0x0203, 0x0405, 0x0607, 0x0809],
            vec![0x0201, 0x0403, 0x0605, 0x0807],
            vec![0x0302, 0x0504, 0x0706, 0x0908],
        ]
    );
    let mut declared = parameters(32, Endiannes::Big);
    declared.file_offset = Some(vec![1, 8]);
    let config = Config::get(&declared, bytes.len()).unwrap();
    assert_eq!(
        iter_potential_instructions::<u32>(&bytes, &config),
        vec![
            vec![0x0203_0405u32],
            vec![0x0304_0506],
            vec![0x0405_0607],
            vec![0x0506_0708],
        ]
    );
}
