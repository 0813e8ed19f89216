use hillrail::blocks::{get_clean_plaintext, pack_blocks};
use hillrail::codec::{decode_symbols, num_to_letter};
use hillrail::hill::{compute_hill_cipher, encrypt};
use hillrail::key::{clean_key, get_clean_matrix, get_key_matrix_size, load_key_matrix, KeyError};
use hillrail::normalize::{clean_plaintext, letter_to_index, normalize_plaintext};
use hillrail::rail::{compute_rail_transposition, transpose};

#[test]
fn normalization_keeps_letters_uppercased() {
    let raw = String::from("Hello, World! 123");
    let letters = clean_plaintext(&raw);
    assert_eq!(letters, vec!['H', 'E', 'L', 'L', 'O', 'W', 'O', 'R', 'L', 'D']);
    let stream = letter_to_index(letters);
    assert_eq!(stream, vec![7, 4, 11, 11, 14, 22, 14, 17, 11, 3]);
}

#[test]
fn normalize_plaintext_pairs_letters_with_indices() {
    let raw = String::from("Hello, World! 123");
    let (letters, stream) = normalize_plaintext(&raw);
    assert_eq!(letters, vec!['H', 'E', 'L', 'L', 'O', 'W', 'O', 'R', 'L', 'D']);
    assert_eq!(stream, vec![7, 4, 11, 11, 14, 22, 14, 17, 11, 3]);
}

#[test]
fn normalize_empty_input_yields_empty_streams() {
    let raw = String::from("");
    let (letters, stream) = normalize_plaintext(&raw);
    assert!(letters.is_empty());
    assert!(stream.is_empty());
}

#[test]
fn codec_round_trips_every_residue() {
    for r in 0..26u8 {
        let letters = decode_symbols(&vec![r as i64]);
        assert_eq!(letters.len(), 1);
        let back = letter_to_index(letters);
        assert_eq!(back, vec![r]);
    }
}

#[test]
fn codec_maps_residues_to_letters() {
    let letters = num_to_letter(&vec![7, 8, 0, 19, 25]);
    assert_eq!(letters, vec!['H', 'I', 'A', 'T', 'Z']);
}

#[test]
fn clean_key_parses_rows_and_drops_junk_tokens() {
    let raw = String::from("2 x\n3 3\n2 5\n");
    let rows = clean_key(&raw);
    assert_eq!(rows, vec![vec![2], vec![3, 3], vec![2, 5]]);
}

#[test]
fn clean_key_handles_signs_blank_lines_and_overflow() {
    let raw = String::from("-7 +8\n\n  99999999999999999999999999 4\t5");
    let rows = clean_key(&raw);
    assert_eq!(rows, vec![vec![-7, 8], vec![], vec![4, 5]]);
}

#[test]
fn clean_key_parses_extreme_values() {
    let raw = String::from("9223372036854775807 -9223372036854775808 9223372036854775808");
    let rows = clean_key(&raw);
    assert_eq!(rows, vec![vec![i64::MAX, i64::MIN]]);
}

#[test]
fn key_size_and_clean_matrix_follow_the_first_row() {
    let rows = vec![vec![2], vec![3, 3], vec![2, 5]];
    assert_eq!(get_key_matrix_size(&rows), 2);
    let matrix = get_clean_matrix(&rows);
    assert_eq!(matrix, vec![vec![3, 3], vec![2, 5]]);
}

#[test]
fn load_key_matrix_accepts_a_square_key() {
    let raw = String::from("2\n3 3\n2 5\n");
    let km = load_key_matrix(&raw).unwrap();
    assert_eq!(km.size, 2);
    assert_eq!(km.rows, vec![vec![3, 3], vec![2, 5]]);
}

#[test]
fn load_key_matrix_skips_leading_empty_lines() {
    let raw = String::from("\n  \n2\n3 3\n2 5");
    let km = load_key_matrix(&raw).unwrap();
    assert_eq!(km.size, 2);
    assert_eq!(km.rows, vec![vec![3, 3], vec![2, 5]]);
}

#[test]
fn load_key_matrix_rejects_empty_text() {
    let raw = String::from("");
    assert_eq!(load_key_matrix(&raw).unwrap_err(), KeyError::MalformedKeyFile);
}

#[test]
fn load_key_matrix_rejects_degenerate_sizes() {
    let zero = String::from("0\n1 2\n3 4");
    assert_eq!(load_key_matrix(&zero).unwrap_err(), KeyError::DegenerateKeySize);
    let negative = String::from("-2\n1 2\n3 4");
    assert_eq!(load_key_matrix(&negative).unwrap_err(), KeyError::DegenerateKeySize);
}

#[test]
fn load_key_matrix_rejects_missing_rows() {
    let raw = String::from("3\n1 2 3\n4 5 6\n");
    assert_eq!(load_key_matrix(&raw).unwrap_err(), KeyError::MalformedKeyFile);
}

#[test]
fn load_key_matrix_rejects_rows_of_the_wrong_width() {
    let short = String::from("2\n3\n2 5");
    assert_eq!(load_key_matrix(&short).unwrap_err(), KeyError::MalformedKeyFile);
    let long = String::from("2\n3 3 9\n2 5");
    assert_eq!(load_key_matrix(&long).unwrap_err(), KeyError::MalformedKeyFile);
}

#[test]
fn pack_blocks_pads_the_final_block_with_23() {
    let stream: Vec<u8> = vec![1, 2, 3, 4, 5];
    let blocks = pack_blocks(&stream, 2);
    assert_eq!(blocks, vec![vec![1, 2], vec![3, 4], vec![5, 23]]);
}

#[test]
fn pack_blocks_leaves_exact_multiples_unpadded() {
    let stream: Vec<u8> = vec![1, 2, 3, 4];
    let blocks = get_clean_plaintext(&2, &stream);
    assert_eq!(blocks, vec![vec![1, 2], vec![3, 4]]);
}

#[test]
fn pack_blocks_of_empty_stream_is_empty() {
    let stream: Vec<u8> = vec![];
    let blocks = pack_blocks(&stream, 3);
    assert!(blocks.is_empty());
}

#[test]
fn pack_blocks_pads_a_single_short_block() {
    let stream: Vec<u8> = vec![9];
    let blocks = pack_blocks(&stream, 3);
    assert_eq!(blocks, vec![vec![9, 23, 23]]);
}

#[test]
fn hill_cipher_matches_the_worked_example() {
    let key = vec![vec![3, 3], vec![2, 5]];
    let blocks = vec![vec![7, 4], vec![11, 15]];
    let cipher = compute_hill_cipher(&2, &key, &blocks);
    assert_eq!(cipher, vec![7, 8, 0, 19]);
}

#[test]
fn hill_cipher_reduces_negative_sums_into_range() {
    let key = vec![vec![-1]];
    let blocks = vec![vec![1], vec![3]];
    let cipher = encrypt(&key, &blocks, 1);
    assert_eq!(cipher, vec![25, 23]);
}

#[test]
fn hill_cipher_output_length_is_blocks_times_size() {
    let key = vec![vec![1, 2, 3], vec![4, 5, 6], vec![7, 8, 9]];
    let blocks = vec![vec![1, 1, 1], vec![2, 2, 2]];
    let cipher = encrypt(&key, &blocks, 3);
    assert_eq!(cipher.len(), 6);
    assert!(cipher.iter().all(|&v| (0..26).contains(&v)));
}

#[test]
fn transposition_at_depth_one_is_identity() {
    let text: Vec<char> = "RAILFENCE".chars().collect();
    assert_eq!(compute_rail_transposition(&text, 1), text);
    assert_eq!(transpose(&text, 1), text);
}

#[test]
fn transposition_zigzags_over_three_rails() {
    let text: Vec<char> = "HIAT".chars().collect();
    let out = compute_rail_transposition(&text, 3);
    let expected: Vec<char> = "HITA".chars().collect();
    assert_eq!(out, expected);
}

#[test]
fn transposition_zigzags_over_two_rails() {
    let text: Vec<char> = "ABCDE".chars().collect();
    let out = transpose(&text, 2);
    let expected: Vec<char> = "ACEBD".chars().collect();
    assert_eq!(out, expected);
}

#[test]
fn transposition_round_trips_through_a_hand_derived_inverse() {
    // depth 3, length 7: positions walk rails 0,1,2,1,0,1,2, so the
    // destination of each input position is 0,2,5,3,1,4,6
    let text: Vec<char> = "WEAREUS".chars().collect();
    let out = transpose(&text, 3);
    let dest: Vec<usize> = vec![0, 2, 5, 3, 1, 4, 6];
    let mut back: Vec<char> = vec![' '; text.len()];
    for (i, &d) in dest.iter().enumerate() {
        back[i] = out[d];
    }
    assert_eq!(back, text);
}

#[test]
fn end_to_end_hill_then_rail_fence() {
    let raw_key = String::from("2\n3 3\n2 5\n");
    let km = load_key_matrix(&raw_key).unwrap();
    let raw_text = String::from("HELP");
    let (_, stream) = normalize_plaintext(&raw_text);
    assert_eq!(stream, vec![7, 4, 11, 15]);
    let blocks = pack_blocks(&stream, km.size);
    assert_eq!(blocks, vec![vec![7, 4], vec![11, 15]]);
    let cipher = encrypt(&km.rows, &blocks, km.size);
    assert_eq!(cipher, vec![7, 8, 0, 19]);
    let letters = decode_symbols(&cipher);
    let plain: String = letters.iter().collect();
    assert_eq!(plain, "HIAT");
    let depth_one: String = transpose(&letters, 1).iter().collect();
    assert_eq!(depth_one, "HIAT");
    let depth_three: String = transpose(&letters, 3).iter().collect();
    assert_eq!(depth_three, "HITA");
}
