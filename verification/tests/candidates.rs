use binary_analysis::candidates::{call_candidates, ret_candidates};
use binary_analysis::cli::Parameters;
use binary_analysis::config::Config;
use binary_analysis::endiannes::Endiannes;

fn config(call_range: [usize; 2], ret_range: [usize; 2]) -> Config {
    let parameters = Parameters {
        file_path: String::from("binary"),
        instr_len: 8,
        call_opcode_len: Some(4),
        endiannes: Endiannes::Big,
        ret_opcode_index: None,
        call_opcode_index: None,
        call_operand_index: None,
        file_offset: None,
        pc_offset: 0,
        pc_inc: None,
        left_shift_call_operand: 0,
        nr_cand: 3,
        call_search_range: call_range.to_vec(),
        ret_search_range: ret_range.to_vec(),
        ret_func_dist: 5,
        parallell: false,
        include_instructions: false,
        is_absolute_addressing: false,
    };
    Config::get(&parameters, 1 << 20).unwrap()
}

fn whole_word(range: [usize; 2]) -> Config {
    let mut config = config(range, range);
    config.call_opcode_mask = 0xff;
    config.call_operand_mask = 0;
    config.call_operand_signed_mask = 0;
    config
}

fn copies(parts: &[(u8, usize)]) -> Vec<u8> {
    let mut bytes: Vec<u8> = Vec::new();
    let longest = parts.iter().map(|part| part.1).max().unwrap_or(0);
    for round in 0..longest {
        for &(value, count) in parts {
            if round < count {
                bytes.push(value);
            }
        }
    }
    bytes
}

fn sorted(mut counts: Vec<(u64, usize)>) -> Vec<(u64, usize)> {
    counts.sort();
    counts
}

#[test]
fn the_more_frequent_of_two_values_ranks_first() {
    let mut bytes: Vec<u8> = Vec::new();
    for index in 0..20u8 {
        bytes.push(0x10 | (index & 0x0f));
    }
    for index in 0..15u8 {
        bytes.push(0x20 | (index & 0x0f));
    }
    let top = config([0, 1], [0, 1]);
    assert_eq!(call_candidates(&bytes, &top, &Endiannes::Big), vec![(0x10, 20)]);
    let both = config([0, 2], [0, 2]);
    assert_eq!(
        call_candidates(&bytes, &both, &Endiannes::Big),
        vec![(0x10, 20), (0x20, 15)]
    );
    let second = config([1, 1], [0, 1]);
    assert_eq!(call_candidates(&bytes, &second, &Endiannes::Big), vec![(0x20, 15)]);
    for n in 12..40usize {
        for m in 11..n {
            let bytes = copies(&[(0x35, m), (0x47, n)]);
            assert_eq!(
                call_candidates(&bytes, &top, &Endiannes::Little),
                vec![(0x40, n)]
            );
        }
    }
}

#[test]
fn values_at_the_noise_threshold_are_left_out() {
    let bytes = copies(&[(0x10, 10), (0x20, 11), (0x30, 1), (0x40, 12)]);
    let wide = config([0, 20], [0, 15]);
    assert_eq!(
        call_candidates(&bytes, &wide, &Endiannes::Big),
        vec![(0x40, 12), (0x20, 11)]
    );
    assert_eq!(
        ret_candidates(&bytes, &wide, &Endiannes::Big),
        vec![(0x40, 12), (0x20, 11)]
    );
    let rare = copies(&[(0x10, 10), (0x20, 9)]);
    assert!(call_candidates(&rare, &wide, &Endiannes::Big).is_empty());
    assert!(ret_candidates(&rare, &wide, &Endiannes::Big).is_empty());
    let empty: Vec<u8> = Vec::new();
    assert!(call_candidates(&empty, &wide, &Endiannes::Big).is_empty());
    assert!(ret_candidates(&empty, &wide, &Endiannes::Big).is_empty());
}

#[test]
fn the_window_skips_and_takes_ranks() {
    let bytes = copies(&[(0x11, 30), (0x22, 20), (0x33, 12), (0x44, 40), (0x55, 25)]);
    let ranking: Vec<(u64, usize)> =
        vec![(0x44, 40), (0x11, 30), (0x55, 25), (0x22, 20), (0x33, 12)];
    for skip in 0..7usize {
        for take in 0..7usize {
            let config = config([skip, take], [take, skip]);
            let start = skip.min(5);
            let end = (skip + take).min(5);
            assert_eq!(
                ret_candidates(&bytes, &config, &Endiannes::Big),
                ranking[take.min(5)..(skip + take).min(5)].to_vec()
            );
            let calls: Vec<(u64, usize)> = ranking[start..end]
                .iter()
                .map(|entry| (entry.0 & 0xf0, entry.1))
                .collect();
            assert_eq!(call_candidates(&bytes, &config, &Endiannes::Big), calls);
        }
    }
    let huge = config([usize::MAX, usize::MAX], [1, usize::MAX]);
    assert!(call_candidates(&bytes, &huge, &Endiannes::Big).is_empty());
    assert_eq!(ret_candidates(&bytes, &huge, &Endiannes::Big), ranking[1..].to_vec());
}

#[test]
fn the_masks_are_applied_before_counting() {
    let bytes = copies(&[(0x11, 6), (0x12, 6), (0x21, 11), (0x31, 3)]);
    let wide = config([0, 20], [0, 15]);
    assert_eq!(
        call_candidates(&bytes, &wide, &Endiannes::Big),
        vec![(0x10, 12), (0x20, 11)]
    );
    assert_eq!(ret_candidates(&bytes, &wide, &Endiannes::Big), vec![(0x21, 11)]);
}

#[test]
fn equal_counts_come_in_either_order() {
    let bytes = copies(&[(0x10, 15), (0x20, 15), (0x30, 15), (0x40, 20)]);
    let wide = config([0, 20], [0, 15]);
    let candidates = call_candidates(&bytes, &wide, &Endiannes::Big);
    assert_eq!(candidates[0], (0x40, 20));
    assert_eq!(
        sorted(candidates),
        vec![(0x10, 15), (0x20, 15), (0x30, 15), (0x40, 20)]
    );
}

#[test]
fn wider_words_are_counted_under_their_byte_order() {
    let mut parameters = Parameters {
        file_path: String::from("binary"),
        instr_len: 16,
        call_opcode_len: Some(8),
        endiannes: Endiannes::Unknown,
        ret_opcode_index: None,
        call_opcode_index: None,
        call_operand_index: None,
        file_offset: None,
        pc_offset: 0,
        pc_inc: None,
        left_shift_call_operand: 0,
        nr_cand: 3,
        call_search_range: vec![0, 20],
        ret_search_range: vec![0, 15],
        ret_func_dist: 5,
        parallell: false,
        include_instructions: false,
        is_absolute_addressing: false,
    };
    let mut bytes: Vec<u8> = Vec::new();
    for index in 0..12u8 {
        bytes.push(0xab);
        bytes.push(index);
    }
    bytes.push(0xab);
    let config = Config::get(&parameters, bytes.len()).unwrap();
    assert_eq!(call_candidates(&bytes, &config, &Endiannes::Big), vec![(0xab00, 12)]);
    assert!(call_candidates(&bytes, &config, &Endiannes::Little).is_empty());
    assert!(ret_candidates(&bytes, &config, &Endiannes::Big).is_empty());
    parameters.call_opcode_len = Some(0);
    let config = Config::get(&parameters, bytes.len()).unwrap();
    assert_eq!(call_candidates(&bytes, &config, &Endiannes::Big), vec![(0, 12)]);
}

fn large_binary(len: usize) -> Vec<u8> {
    let mut bytes: Vec<u8> = vec![0x90; len];
    let mut at: usize = 0;
    while at < len {
        bytes[at] = 0xc3;
        at += 97;
    }
    bytes
}

#[test]
fn sampling_agrees_with_the_full_count_when_the_sample_holds_every_frequent_value() {
    let bytes = large_binary(300_000);
    assert!(bytes[8192..16384].contains(&0xc3));
    let wide = whole_word([0, 15]);
    let sampled = ret_candidates(&bytes, &wide, &Endiannes::Big);
    let full = call_candidates(&bytes, &wide, &Endiannes::Big);
    assert_eq!(sampled, full);
    assert_eq!(sampled, vec![(0x90, 300_000 - 3093), (0xc3, 3093)]);
    let small = large_binary(262_144);
    assert_eq!(
        ret_candidates(&small, &wide, &Endiannes::Big),
        call_candidates(&small, &wide, &Endiannes::Big)
    );
    assert_eq!(
        ret_candidates(&small, &wide, &Endiannes::Big),
        vec![(0x90, 262_144 - 2703), (0xc3, 2703)]
    );
}

#[test]
fn sampling_misses_a_value_that_the_sample_does_not_hold() {
    let mut bytes = large_binary(300_000);
    for at in 100_000..100_500usize {
        bytes[at] = 0x55;
    }
    for at in 0..20usize {
        bytes[at] = 0x66;
    }
    bytes[9000] = 0x77;
    let wide = whole_word([0, 15]);
    let sampled = ret_candidates(&bytes, &wide, &Endiannes::Big);
    let full = call_candidates(&bytes, &wide, &Endiannes::Big);
    assert_eq!(sampled.len(), 2);
    assert_eq!(sampled[0].0, 0x90);
    assert_eq!(sampled[1].0, 0xc3);
    assert_eq!(full.len(), 4);
    assert_eq!(full[0], sampled[0]);
    assert_eq!(full[1], sampled[1]);
    assert_eq!(full[2].0, 0x55);
    assert_eq!(full[3].0, 0x66);
    let mut small = bytes.clone();
    small.truncate(262_144);
    assert_eq!(
        ret_candidates(&small, &wide, &Endiannes::Big),
        call_candidates(&small, &wide, &Endiannes::Big)
    );
    assert_eq!(ret_candidates(&small, &wide, &Endiannes::Big).len(), 4);
}

#[test]
fn the_sample_window_is_counted_in_instructions() {
    let mut words: Vec<u16> = vec![0x9090; 140_000];
    for at in 0..50usize {
        words[8192 + 3 * at] = 0xc3c3;
        words[16384 + 3 * at] = 0x5555;
        words[8191 - 3 * at] = 0x6666;
    }
    words[16383] = 0x7777;
    for at in 0..30usize {
        words[20_000 + at] = 0x7777;
    }
    words[8192 + 4000] = 0x8888;
    let bytes: Vec<u8> = words.iter().flat_map(|word| word.to_le_bytes()).collect();
    assert!(bytes.len() > 262_144);
    let parameters = Parameters {
        file_path: String::from("binary"),
        instr_len: 16,
        call_opcode_len: Some(8),
        endiannes: Endiannes::Little,
        ret_opcode_index: None,
        call_opcode_index: None,
        call_operand_index: None,
        file_offset: None,
        pc_offset: 0,
        pc_inc: None,
        left_shift_call_operand: 0,
        nr_cand: 3,
        call_search_range: vec![0, 20],
        ret_search_range: vec![0, 15],
        ret_func_dist: 5,
        parallell: false,
        include_instructions: false,
        is_absolute_addressing: false,
    };
    let config = Config::get(&parameters, bytes.len()).unwrap();
    assert_eq!(
        ret_candidates(&bytes, &config, &Endiannes::Little),
        vec![(0x9090, 140_000 - 182), (0xc3c3, 50), (0x7777, 31)]
    );
}
