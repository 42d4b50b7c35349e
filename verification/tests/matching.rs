use rand::Rng;
use simd_bmh::{find_all_matches_sse, lane_mask, parse_pattern, Pattern};

fn window_matches(pattern: &Pattern, text: &[u8], at: usize) -> bool {
    at + pattern.bytes.len() <= text.len()
        && (0..pattern.bytes.len())
            .all(|k| text[at + k] & pattern.masks[k] == pattern.bytes[k] & pattern.masks[k])
}

fn noise(len: usize, seed: u64) -> Vec<u8> {
    let mut state = seed;
    let mut out = Vec::with_capacity(len);
    for _ in 0..len {
        state = state.wrapping_mul(6364136223846793005).wrapping_add(1442695040888963407);
        out.push((state >> 33) as u8);
    }
    out
}

#[test]
fn test_match() {
    let pattern = parse_pattern("A?C?FF").unwrap();
    let text = b"\xA0\xC0\xFF\x00\xA0\xC0\xFF";

    let matches = pattern.find_all_matches(text);
    assert_eq!(matches, [0, 4]);
}

#[test]
fn test_random_pool_with_fixed_pattern() {
    let buffer_size = 2_000;
    let mut random_buffer: Vec<u8> = (0..buffer_size).map(|_| rand::rng().random()).collect();
    random_buffer[1337..1342].copy_from_slice(b"\xAA\xCC\xFF\xFF\xFF");

    let pattern = parse_pattern("A?C?FF").unwrap();
    let matches = find_all_matches_sse(&random_buffer, &pattern);
    assert!(!matches.is_empty(), "Pattern matches should not be empty!");
}

#[test]
fn random_pool_reports_the_planted_window() {
    let mut buffer = noise(2_000, 7);
    buffer[1337..1342].copy_from_slice(b"\xAA\xCC\xFF\xFF\xFF");
    let pattern = parse_pattern("A?C?FF").unwrap();
    let matches = find_all_matches_sse(&buffer, &pattern);
    assert!(matches.contains(&1337));
    assert!(matches.iter().all(|&at| window_matches(&pattern, &buffer, at)));
}

#[test]
fn method_and_function_agree() {
    let pattern = parse_pattern("?1 2?").unwrap();
    let buffer = noise(300, 11);
    assert_eq!(pattern.find_all_matches(&buffer), find_all_matches_sse(&buffer, &pattern));
}

#[test]
fn buffer_shorter_than_pattern_has_no_match() {
    let pattern = parse_pattern("11 22 33 44").unwrap();
    assert_eq!(pattern.find_all_matches(&[]), Vec::<usize>::new());
    assert_eq!(pattern.find_all_matches(&[0x11]), Vec::<usize>::new());
    assert_eq!(pattern.find_all_matches(&[0x11, 0x22, 0x33]), Vec::<usize>::new());

    let long = parse_pattern("?? ?? ?? ?? ?? ?? ?? ?? ?? ?? ?? ?? ?? ?? ?? ?? ?? FF").unwrap();
    assert_eq!(long.find_all_matches(&[0xFF; 17]), Vec::<usize>::new());
}

#[test]
fn empty_buffer_has_no_match() {
    for text in ["AA", "??", "A? ?B"] {
        let pattern = parse_pattern(text).unwrap();
        assert!(pattern.find_all_matches(&[]).is_empty());
    }
}

#[test]
fn buffer_as_long_as_pattern() {
    let pattern = parse_pattern("11 2? ?3").unwrap();
    assert_eq!(pattern.find_all_matches(&[0x11, 0x2F, 0xE3]), vec![0]);
    assert_eq!(pattern.find_all_matches(&[0x11, 0x3F, 0xE3]), Vec::<usize>::new());
}

#[test]
fn literal_pattern_planted_in_the_lanes_is_found_everywhere() {
    let pattern = parse_pattern("DE AD BE EF").unwrap();
    let needle = [0xDE, 0xAD, 0xBE, 0xEF];
    let mut buffer = noise(4_096, 3);
    for byte in buffer.iter_mut() {
        if *byte == 0xDE {
            *byte = 0x00;
        }
    }
    let planted = [0usize, 5, 12, 13 * 16 - 2, 1000, 2047, 3000, 4092];
    for &at in planted.iter() {
        buffer[at..at + 4].copy_from_slice(&needle);
    }
    let matches = pattern.find_all_matches(&buffer);
    assert_eq!(matches, planted.to_vec());
}

#[test]
fn literal_pattern_has_no_spurious_match() {
    let pattern = parse_pattern("01 02").unwrap();
    for seed in 0..20u64 {
        let mut buffer = noise(1_024, seed);
        for byte in buffer.iter_mut() {
            *byte &= 0x03;
        }
        let matches = pattern.find_all_matches(&buffer);
        let expected: Vec<usize> =
            (0..buffer.len()).filter(|&at| window_matches(&pattern, &buffer, at)).collect();
        assert_eq!(matches, expected, "seed {}", seed);
    }
}

#[test]
fn masked_pattern_in_the_lanes_agrees_with_a_plain_search() {
    for (text, seed) in [("A? ?B", 1u64), ("?? 1? FF", 2), ("0? ?? ?0", 3), ("?F", 4)] {
        let pattern = parse_pattern(text).unwrap();
        let alphabet = [0xA0, 0xAB, 0x1B, 0xFF, 0x10, 0x00, 0x0F, 0xF0];
        let mut buffer = noise(1_600, seed);
        for byte in buffer.iter_mut() {
            *byte = alphabet[(*byte & 0x07) as usize];
        }
        let matches = pattern.find_all_matches(&buffer);
        let expected: Vec<usize> =
            (0..buffer.len()).filter(|&at| window_matches(&pattern, &buffer, at)).collect();
        assert!(!expected.is_empty());
        assert_eq!(matches, expected, "pattern {}", text);
    }
}

#[test]
fn single_wildcard_matches_at_every_offset() {
    let pattern = parse_pattern("??").unwrap();
    for len in [1usize, 2, 15, 16, 17, 31, 32, 33, 100] {
        let buffer = noise(len, len as u64);
        let matches = pattern.find_all_matches(&buffer);
        assert_eq!(matches, (0..len).collect::<Vec<usize>>(), "length {}", len);
    }
}

#[test]
fn wildcards_only_are_scanned_window_by_window() {
    let pattern = parse_pattern("?? ?? ??").unwrap();
    let buffer = noise(40, 5);
    assert_eq!(
        pattern.find_all_matches(&buffer),
        vec![0, 3, 6, 9, 12, 15, 18, 21, 24, 27, 30, 33, 36]
    );
}

#[test]
fn offsets_ascend_strictly() {
    for (text, seed) in [("??", 1u64), ("0?", 2), ("?0 ?1", 3), ("00", 4), ("01 ?? 0?", 5)] {
        let pattern = parse_pattern(text).unwrap();
        for len in [0usize, 7, 16, 40, 333] {
            let mut buffer = noise(len, seed);
            for byte in buffer.iter_mut() {
                *byte &= 0x01;
            }
            let matches = pattern.find_all_matches(&buffer);
            assert!(matches.windows(2).all(|pair| pair[0] < pair[1]));
            assert!(matches.iter().all(|&at| window_matches(&pattern, &buffer, at)));
        }
    }
}

#[test]
fn overlapping_matches_in_the_lanes_are_all_reported() {
    let pattern = parse_pattern("AA AA").unwrap();
    let buffer = [0xAA; 32];
    assert_eq!(pattern.find_all_matches(&buffer), (0..31).collect::<Vec<usize>>());
}

#[test]
fn overlapping_matches_behind_the_lanes_are_skipped() {
    let pattern = parse_pattern("AA AA").unwrap();
    assert_eq!(pattern.find_all_matches(&[0xAA; 5]), vec![0, 2]);

    let buffer = [0xAA; 21];
    let mut expected: Vec<usize> = (0..15).collect();
    expected.extend([16, 18]);
    assert_eq!(pattern.find_all_matches(&buffer), expected);
}

#[test]
fn window_across_the_end_of_the_lanes_is_not_reported() {
    let pattern = parse_pattern("AA BB").unwrap();
    let mut buffer = [0u8; 17];
    buffer[15] = 0xAA;
    buffer[16] = 0xBB;
    assert_eq!(pattern.find_all_matches(&buffer), Vec::<usize>::new());

    let mut buffer = [0u8; 18];
    buffer[16] = 0xAA;
    buffer[17] = 0xBB;
    assert_eq!(pattern.find_all_matches(&buffer), vec![16]);

    let mut buffer = [0u8; 17];
    buffer[14] = 0xAA;
    buffer[15] = 0xBB;
    assert_eq!(pattern.find_all_matches(&buffer), vec![14]);
}

#[test]
fn anchor_in_a_lane_reports_a_window_that_ends_behind_the_lanes() {
    let pattern = parse_pattern("BB ?? ??").unwrap();
    let mut buffer = [0u8; 18];
    buffer[15] = 0xBB;
    assert_eq!(pattern.find_all_matches(&buffer), vec![15]);
}

#[test]
fn candidate_before_the_buffer_is_discarded() {
    let pattern = parse_pattern("?? ?? FF").unwrap();
    let mut buffer = [0u8; 16];
    buffer[0] = 0xFF;
    buffer[1] = 0xFF;
    buffer[2] = 0xFF;
    assert_eq!(pattern.find_all_matches(&buffer), vec![0]);
}

#[test]
fn skip_search_uses_the_table() {
    let pattern = parse_pattern("11 22 33").unwrap();
    let buffer = [0x00, 0x11, 0x22, 0x11, 0x22, 0x33, 0x00, 0x11, 0x22, 0x33];
    assert_eq!(pattern.find_all_matches(&buffer), vec![3, 7]);
}

#[test]
fn skip_search_may_pass_over_a_masked_match() {
    let pattern = parse_pattern("?? 11").unwrap();
    let buffer = [0x11, 0x22, 0x11];
    assert_eq!(pattern.shift_table[0x22], 2);
    assert_eq!(pattern.find_all_matches(&buffer), Vec::<usize>::new());
    assert!(window_matches(&pattern, &buffer, 1));
}

#[test]
fn lane_mask_sets_one_bit_for_each_accepted_byte() {
    let mut lane = [0u8; 20];
    lane[2] = 0xA7;
    lane[3] = 0xA0;
    lane[10] = 0xAF;
    lane[17] = 0x5A;
    lane[18] = 0xA1;
    assert_eq!(lane_mask(&lane, 2, 0xA0, 0xF0), 0b0000_0001_0000_0011);
    assert_eq!(lane_mask(&lane, 0, 0xA0, 0xFF), 1 << 3);
    assert_eq!(lane_mask(&lane, 4, 0x0A, 0x0F), 1 << 13);
    assert_eq!(lane_mask(&lane, 0, 0x12, 0x00), 0xFFFF);
    assert_eq!(lane_mask(&lane, 4, 0xA5, 0xF0), 1 << 6 | 1 << 14);
    assert_eq!(lane_mask(&lane, 0, 0x77, 0xFF), 0);
}

#[test]
fn matches_at_checks_one_window() {
    let pattern = parse_pattern("1? ?2 33").unwrap();
    let buffer = [0x00, 0x1F, 0xE2, 0x33, 0x10, 0x02];
    assert!(pattern.matches_at(&buffer, 1));
    assert!(!pattern.matches_at(&buffer, 0));
    assert!(!pattern.matches_at(&buffer, 2));
    assert!(!pattern.matches_at(&buffer, 4));
    assert!(!pattern.matches_at(&buffer, 6));
    assert!(!pattern.matches_at(&buffer, usize::MAX));
}
