use binary_analysis::cli::Parameters;
use binary_analysis::config::Config;
use binary_analysis::edges::{
    filter_valid_edges, find_potential_edges, follow_call, has_return_before, shift_factor,
    sign_extend_operand,
};
use binary_analysis::endiannes::Endiannes;

const NOP: u32 = 0xaa00_0000;
const CALL: u32 = 0xd400_0000;

fn parameters(shift: u64, absolute: bool) -> Parameters {
    Parameters {
        file_path: String::from("binary"),
        instr_len: 32,
        call_opcode_len: Some(8),
        endiannes: Endiannes::Big,
        ret_opcode_index: None,
        call_opcode_index: None,
        call_operand_index: None,
        file_offset: None,
        pc_offset: 0x40_0000,
        pc_inc: None,
        left_shift_call_operand: shift,
        nr_cand: 3,
        call_search_range: vec![0, 20],
        ret_search_range: vec![0, 15],
        ret_func_dist: 5,
        parallell: false,
        include_instructions: false,
        is_absolute_addressing: absolute,
    }
}

fn config(shift: u64, absolute: bool) -> Config {
    Config::get(&parameters(shift, absolute), 4096).unwrap()
}

fn encode(words: &[u32]) -> Vec<u8> {
    words.iter().flat_map(|word| word.to_be_bytes()).collect()
}

fn relative_word(distance: i32) -> u32 {
    CALL | ((distance as u32) & 0x00ff_ffff)
}

fn relative_call(distance: i32) -> u64 {
    relative_word(distance) as u64
}

#[test]
fn sign_extension_at_the_boundaries() {
    let mask: u64 = 0x007f_ffff;
    assert_eq!(sign_extend_operand(0, mask), 0);
    assert_eq!(sign_extend_operand(1, mask), 1);
    assert_eq!(sign_extend_operand(mask, mask), 0x007f_ffff);
    assert_eq!(sign_extend_operand(mask + 1, mask), -0x0080_0000);
    assert_eq!(sign_extend_operand(0x00ff_ffff, mask), -1);
    assert_eq!(sign_extend_operand(0x00ff_fff8, mask), -8);
    assert_eq!(sign_extend_operand(0, 0), 0);
    assert_eq!(sign_extend_operand(1, 0), -1);
    assert_eq!(sign_extend_operand(u64::MAX, u64::MAX >> 1), -1);
    assert_eq!(sign_extend_operand(1 << 63, u64::MAX >> 1), i64::MIN);
    assert_eq!(sign_extend_operand(u64::MAX >> 1, u64::MAX >> 1), i64::MAX);
    assert_eq!(sign_extend_operand(u64::MAX, u64::MAX), -1);
    assert_eq!(sign_extend_operand(5, u64::MAX), 5);
}

#[test]
fn shift_factor_is_a_power_of_two() {
    assert_eq!(shift_factor(0), 1);
    assert_eq!(shift_factor(2), 4);
    assert_eq!(shift_factor(63), 1 << 63);
}

#[test]
fn relative_calls_are_followed() {
    let config = config(2, false);
    assert_eq!(follow_call(relative_call(40), 10, 100, CALL as u64, &config), Some(50));
    assert_eq!(follow_call(relative_call(-8), 20, 100, CALL as u64, &config), Some(12));
    assert_eq!(follow_call(relative_call(5), 60, 100, CALL as u64, &config), Some(65));
    assert_eq!(follow_call(relative_call(-5), 60, 100, CALL as u64, &config), Some(55));
    assert_eq!(follow_call(relative_call(89), 10, 100, CALL as u64, &config), Some(99));
    assert_eq!(follow_call(relative_call(-10), 10, 100, CALL as u64, &config), Some(0));
}

#[test]
fn relative_calls_to_near_or_outside_targets_are_passed_over() {
    let config = config(2, false);
    assert_eq!(follow_call(relative_call(4), 70, 100, CALL as u64, &config), None);
    assert_eq!(follow_call(relative_call(-4), 70, 100, CALL as u64, &config), None);
    assert_eq!(follow_call(relative_call(0), 70, 100, CALL as u64, &config), None);
    assert_eq!(follow_call(relative_call(1), 70, 100, CALL as u64, &config), None);
    assert_eq!(follow_call(relative_call(90), 10, 100, CALL as u64, &config), None);
    assert_eq!(follow_call(relative_call(-11), 10, 100, CALL as u64, &config), None);
    assert_eq!(follow_call(relative_call(0x7f_ffff), 10, 100, CALL as u64, &config), None);
    assert_eq!(follow_call(relative_call(-0x80_0000), 10, 100, CALL as u64, &config), None);
}

#[test]
fn other_opcodes_are_no_calls() {
    let config = config(2, false);
    assert_eq!(follow_call((NOP | 40) as u64, 10, 100, CALL as u64, &config), None);
    assert_eq!(follow_call((NOP | 40) as u64, 10, 100, NOP as u64, &config), Some(50));
    assert_eq!(follow_call(relative_call(40), 10, 100, 0xd400_0028, &config), None);
}

#[test]
fn relative_distance_is_rounded_towards_zero() {
    let config = config(0, false);
    assert_eq!(config.pc_inc, 4);
    assert_eq!(follow_call(relative_call(-21), 50, 100, CALL as u64, &config), Some(45));
    assert_eq!(follow_call(relative_call(-23), 50, 100, CALL as u64, &config), Some(45));
    assert_eq!(follow_call(relative_call(-24), 50, 100, CALL as u64, &config), Some(44));
    assert_eq!(follow_call(relative_call(21), 50, 100, CALL as u64, &config), Some(55));
    assert_eq!(follow_call(relative_call(23), 50, 100, CALL as u64, &config), Some(55));
    assert_eq!(follow_call(relative_call(19), 50, 100, CALL as u64, &config), None);
    assert_eq!(follow_call(relative_call(-19), 50, 100, CALL as u64, &config), None);
}

#[test]
fn absolute_calls_are_followed() {
    let config = config(0, true);
    let call = |address: u32| (CALL | address) as u64;
    assert_eq!(follow_call(call(0x40_00c8), 10, 100, CALL as u64, &config), Some(50));
    assert_eq!(follow_call(call(0x40_0000), 10, 100, CALL as u64, &config), Some(0));
    assert_eq!(follow_call(call(0x40_0003), 10, 100, CALL as u64, &config), Some(0));
    assert_eq!(follow_call(call(0x40_0004), 10, 100, CALL as u64, &config), Some(1));
    assert_eq!(follow_call(call(0x40_0028), 10, 100, CALL as u64, &config), Some(10));
    assert_eq!(follow_call(call(0x40_018c), 10, 100, CALL as u64, &config), Some(99));
    assert_eq!(follow_call(call(0x40_0190), 10, 100, CALL as u64, &config), None);
    assert_eq!(follow_call(call(0x3f_ffff), 10, 100, CALL as u64, &config), None);
    assert_eq!(follow_call(call(0), 10, 100, CALL as u64, &config), None);
}

#[test]
fn absolute_operands_are_shifted_before_the_offset_is_taken_off() {
    let mut config = config(2, true);
    config.pc_offset = 0x1000;
    config.pc_inc = 2;
    let call = |operand: u32| (CALL | operand) as u64;
    assert_eq!(follow_call(call(0x400), 0, 100, CALL as u64, &config), Some(0));
    assert_eq!(follow_call(call(0x419), 0, 100, CALL as u64, &config), Some(50));
    assert_eq!(follow_call(call(0x3ff), 0, 100, CALL as u64, &config), None);
    assert_eq!(follow_call(call(0x432), 0, 100, CALL as u64, &config), None);
}

#[test]
fn a_shift_that_leaves_the_word_is_followed_exactly() {
    let mut wide = parameters(63, false);
    wide.instr_len = 64;
    wide.call_opcode_len = Some(0);
    wide.pc_inc = Some(1 << 62);
    let config = Config::get(&wide, 4096).unwrap();
    assert_eq!(follow_call(3, 10, 100, 0, &config), Some(16));
    assert_eq!(follow_call(u64::MAX - 2, 10, 100, 0, &config), Some(4));
    assert_eq!(follow_call(1, 10, 100, 0, &config), None);
    assert_eq!(follow_call(44, 10, 100, 0, &config), Some(98));
    assert_eq!(follow_call(45, 10, 100, 0, &config), None);
}

fn sample_binary() -> Vec<u8> {
    let mut words: Vec<u32> = vec![NOP; 100];
    words[10] = relative_word(40);
    words[20] = relative_word(-8);
    words[30] = relative_word(2);
    words[40] = relative_word(100);
    words[5] = relative_word(-64);
    words[60] = relative_word(5);
    words[70] = relative_word(4);
    words[80] = relative_word(-77);
    words[49] = 0;
    words[2] = 0;
    encode(&words)
}

#[test]
fn edges_come_sorted_by_target() {
    let config = config(2, false);
    let binary = sample_binary();
    let edges = find_potential_edges(&binary, CALL as u64, &config, &Endiannes::Big);
    assert_eq!(edges, vec![(80, 3), (20, 12), (10, 50), (60, 65)]);
}

#[test]
fn edges_stay_in_bounds_and_away_from_their_calls() {
    let config = config(2, false);
    let mut words: Vec<u32> = Vec::new();
    for index in 0..200u32 {
        words.push(CALL | (index.wrapping_mul(2_654_435_761) & 0x00ff_ffff));
    }
    for index in 0..40i32 {
        words.push(relative_word(index - 20));
    }
    let binary = encode(&words);
    let edges = find_potential_edges(&binary, CALL as u64, &config, &Endiannes::Big);
    assert!(!edges.is_empty());
    for window in edges.windows(2) {
        assert!(window[0].1 <= window[1].1);
    }
    for &(source, target) in edges.iter() {
        assert!(source < words.len());
        assert!(target < words.len());
        assert!(source.abs_diff(target) > 4);
    }
    let expected: usize = (200..240usize)
        .filter(|&index| {
            let distance = index as i64 - 200 - 20;
            distance.abs() > 4 && index as i64 + distance < 240
        })
        .count();
    assert_eq!(edges.iter().filter(|edge| edge.0 >= 200).count(), expected);
}

#[test]
fn no_call_gives_no_edge() {
    let config = config(2, false);
    let binary = encode(&[NOP; 32]);
    assert!(find_potential_edges(&binary, CALL as u64, &config, &Endiannes::Big).is_empty());
    assert!(find_potential_edges(&binary, NOP as u64, &config, &Endiannes::Big).is_empty());
    let empty: Vec<u8> = Vec::new();
    assert!(find_potential_edges(&empty, CALL as u64, &config, &Endiannes::Big).is_empty());
}

#[test]
fn little_endian_edges() {
    let config = config(2, false);
    let mut words: Vec<u32> = vec![NOP; 64];
    words[3] = relative_word(30);
    let binary: Vec<u8> = words.iter().flat_map(|word| word.to_le_bytes()).collect();
    assert_eq!(
        find_potential_edges(&binary, CALL as u64, &config, &Endiannes::Little),
        vec![(3, 33)]
    );
    assert!(find_potential_edges(&binary, CALL as u64, &config, &Endiannes::Big).is_empty());
}

#[test]
fn a_return_is_looked_for_in_the_window_before_the_target() {
    let config = config(2, false);
    let binary = sample_binary();
    assert!(has_return_before(&binary, 50, 0, &config, &Endiannes::Big));
    assert!(has_return_before(&binary, 54, 0, &config, &Endiannes::Big));
    assert!(!has_return_before(&binary, 55, 0, &config, &Endiannes::Big));
    assert!(!has_return_before(&binary, 49, 0, &config, &Endiannes::Big));
    assert!(has_return_before(&binary, 3, 0, &config, &Endiannes::Big));
    assert!(!has_return_before(&binary, 2, 0, &config, &Endiannes::Big));
    assert!(!has_return_before(&binary, 0, 0, &config, &Endiannes::Big));
    assert!(has_return_before(&binary, 12, NOP as u64, &config, &Endiannes::Big));
    assert!(!has_return_before(&binary, 1000, NOP as u64, &config, &Endiannes::Big));
    assert!(has_return_before(&binary, 104, NOP as u64, &config, &Endiannes::Big));
    assert!(!has_return_before(&binary, 105, NOP as u64, &config, &Endiannes::Big));
}

#[test]
fn valid_edges_are_those_behind_a_return_or_at_the_start() {
    let config = config(2, false);
    let binary = sample_binary();
    let edges = vec![(80, 3), (20, 12), (10, 50), (60, 65)];
    assert_eq!(
        filter_valid_edges(&binary, 0, &config, &edges, &Endiannes::Big),
        vec![(80, 3), (10, 50)]
    );
    assert_eq!(
        filter_valid_edges(&binary, NOP as u64, &config, &edges, &Endiannes::Big),
        edges
    );
    assert_eq!(
        filter_valid_edges(&binary, 0x1234, &config, &edges, &Endiannes::Big),
        vec![(80, 3)]
    );
}

#[test]
fn a_target_with_a_full_window_before_it_needs_a_return() {
    let config = config(2, false);
    let binary = encode(&[NOP; 32]);
    let edges = vec![(20, 4), (21, 5), (22, 6)];
    assert_eq!(
        filter_valid_edges(&binary, 0, &config, &edges, &Endiannes::Big),
        vec![(20, 4)]
    );
}

#[test]
fn the_return_mask_is_applied() {
    let mut config = config(2, false);
    config.ret_opcode_mask = 0xff00_0000;
    let binary = sample_binary();
    let edges = vec![(20, 12), (10, 50)];
    assert_eq!(
        filter_valid_edges(&binary, 0xaa00_0000, &config, &edges, &Endiannes::Big),
        edges
    );
    assert_eq!(
        filter_valid_edges(&binary, 0xd400_0000, &config, &edges, &Endiannes::Big),
        vec![(20, 12)]
    );
}

#[test]
fn filtering_only_removes() {
    let config = config(2, false);
    let binary = sample_binary();
    let edges = vec![(1, 90), (2, 50), (3, 7), (4, 50), (5, 0), (6, 51), (7, 99), (8, 54), (9, 55)];
    let valid = filter_valid_edges(&binary, 0, &config, &edges, &Endiannes::Big);
    assert_eq!(valid, vec![(2, 50), (3, 7), (4, 50), (5, 0), (6, 51), (8, 54)]);
    let mut at: usize = 0;
    for edge in valid.iter() {
        while edges[at] != *edge {
            at += 1;
        }
        at += 1;
    }
    assert!(at <= edges.len());
    let none: Vec<(usize, usize)> = Vec::new();
    assert!(filter_valid_edges(&binary, 0, &config, &none, &Endiannes::Big).is_empty());
}

#[test]
fn edges_outside_the_binary_are_filtered_without_a_fault() {
    let config = config(2, false);
    let binary = sample_binary();
    let edges = vec![(0, 100), (0, 101), (0, 5000), (0, usize::MAX)];
    assert_eq!(
        filter_valid_edges(&binary, NOP as u64, &config, &edges, &Endiannes::Big),
        vec![(0, 100), (0, 101)]
    );
}
