use keccak_hasher::{
    keccak256, keccak256check, u64_vec_to_u8_vec, u8_vec_to_u64_vec, KeccakHasher,
};

/// `n` bytes following a simple pattern.
fn patterned(n: usize) -> Vec<u8> {
    (0..n).map(|i| ((i * 7 + 3) % 256) as u8).collect()
}

fn alice() -> Vec<u8> {
    vec![
        65, 108, 105, 99, 101, 32, 119, 97, 115, 32, 98, 101, 103, 105, 110, 110, 105, 110, 103,
        32, 116, 111, 32, 103, 101, 116, 32, 118, 101, 114, 121, 32, 116, 105, 114, 101, 100, 32,
        111, 102, 32, 115, 105, 116, 116, 105, 110, 103, 32, 98, 121, 32, 104, 101, 114, 32, 115,
        105, 115, 116, 101, 114, 32, 111, 110, 32, 116, 104, 101, 32, 98, 97, 110, 107, 44, 32, 97,
        110, 100, 32, 111, 102, 32, 104, 97, 118, 105, 110, 103, 32, 110, 111, 116, 104, 105, 110,
        103, 32, 116, 111, 32, 100, 111, 58, 32, 111, 110, 99, 101, 32, 111, 114, 32, 116, 119,
        105, 99, 101, 32, 115, 104, 101, 32, 104, 97, 100, 32, 112, 101, 101, 112, 101, 100, 32,
        105, 110, 116, 111, 32, 116, 104, 101, 32, 98, 111, 111, 107, 32, 104, 101, 114, 32, 115,
        105, 115, 116, 101, 114, 32, 119, 97, 115, 32, 114, 101, 97, 100, 105, 110, 103, 44, 32,
        98, 117, 116, 32, 105, 116, 32, 104, 97, 100, 32, 110, 111, 32, 112, 105, 99, 116, 117,
        114, 101, 115, 32, 111, 114, 32, 99, 111, 110, 118, 101, 114, 115, 97, 116, 105, 111, 110,
        115, 32, 105, 110, 32, 105, 116, 44, 32, 97, 110, 100, 32, 119, 104, 97, 116, 32, 105, 115,
        32, 116, 104, 101, 32, 117, 115, 101, 32, 111, 102, 32, 97, 32, 98, 111, 111, 107, 44, 32,
        116, 104, 111, 117, 103, 104, 116, 32, 65, 108, 105, 99, 101, 32, 119, 105, 116, 104, 111,
        117, 116, 32, 112, 105, 99, 116, 117, 114, 101, 115, 32, 111, 114, 32, 99, 111, 110, 118,
        101, 114, 115, 97, 116, 105, 111, 110, 115, 63,
    ]
}

#[test]
fn test_empty_input() {
    let output = vec![
        197, 210, 70, 1, 134, 247, 35, 60, 146, 126, 125, 178, 220, 199, 3, 192, 229, 0, 182, 83,
        202, 130, 39, 59, 123, 250, 216, 4, 93, 133, 164, 112,
    ];
    assert_eq!(keccak256(&vec![]), output);
}

#[test]
fn test_one_byte_input() {
    let output = vec![
        21, 191, 54, 255, 99, 225, 69, 172, 52, 26, 134, 0, 126, 137, 21, 92, 243, 18, 222, 79,
        162, 167, 211, 173, 63, 188, 75, 120, 1, 3, 35, 72,
    ];
    assert_eq!(keccak256(&vec![197]), output);
}

#[test]
fn test_short_input() {
    let output = vec![
        56, 209, 138, 203, 103, 210, 92, 139, 185, 148, 39, 100, 182, 47, 24, 225, 112, 84, 246,
        106, 129, 123, 212, 41, 84, 35, 173, 249, 237, 152, 135, 62,
    ];
    assert_eq!(keccak256(&vec![102, 111, 111, 98, 97, 114]), output);
}

#[test]
fn test_whole_lane_input() {
    let output = vec![
        172, 132, 33, 155, 248, 181, 178, 245, 199, 105, 157, 164, 188, 53, 193, 25, 7, 35, 159,
        188, 30, 123, 91, 143, 30, 100, 188, 128, 172, 248, 137, 202,
    ];
    assert_eq!(keccak256(&vec![102, 111, 111, 98, 97, 114, 97, 97]), output);
}

#[test]
fn test_long_input() {
    let output = vec![
        60, 227, 142, 8, 143, 135, 108, 85, 13, 254, 190, 58, 30, 106, 153, 194, 188, 6, 208, 49,
        16, 102, 150, 120, 100, 130, 224, 177, 64, 98, 53, 252,
    ];
    assert_eq!(keccak256(&alice()), output);
}

#[test]
fn seven_bytes_fill_all_but_one_lane_byte() {
    let output = vec![
        175, 45, 216, 40, 135, 187, 91, 226, 234, 168, 17, 112, 35, 176, 180, 134, 217, 219, 212,
        56, 233, 249, 46, 137, 220, 42, 218, 8, 138, 246, 129, 173,
    ];
    assert_eq!(keccak256(&patterned(7)), output);
}

#[test]
fn eight_bytes_fill_one_lane() {
    let output = vec![
        173, 137, 66, 21, 194, 16, 107, 157, 250, 44, 4, 2, 32, 37, 80, 153, 116, 165, 235, 32,
        185, 244, 205, 39, 202, 113, 105, 103, 84, 46, 207, 110,
    ];
    assert_eq!(keccak256(&patterned(8)), output);
}

#[test]
fn one_byte_short_of_a_block_takes_single_pad_byte() {
    let output = vec![
        0, 239, 150, 175, 156, 244, 178, 76, 127, 38, 157, 146, 34, 148, 68, 74, 25, 125, 10, 51,
        99, 140, 46, 86, 99, 76, 87, 232, 146, 16, 58, 143,
    ];
    assert_eq!(keccak256(&patterned(135)), output);
}

#[test]
fn exactly_one_block_pads_a_whole_block() {
    let output = vec![
        116, 32, 97, 188, 173, 118, 126, 212, 196, 245, 136, 59, 29, 203, 26, 173, 17, 175, 220,
        193, 64, 220, 70, 157, 149, 55, 89, 177, 39, 185, 249, 237,
    ];
    assert_eq!(keccak256(&patterned(136)), output);
}

#[test]
fn one_byte_past_a_block() {
    let output = vec![
        227, 55, 31, 97, 231, 112, 171, 242, 84, 195, 66, 57, 195, 176, 9, 154, 217, 5, 148, 80,
        116, 21, 188, 129, 221, 10, 16, 185, 105, 43, 191, 42,
    ];
    assert_eq!(keccak256(&patterned(137)), output);
}

#[test]
fn single_pad_byte_after_a_full_block() {
    let output = vec![
        68, 1, 196, 175, 190, 22, 255, 145, 27, 219, 242, 211, 142, 85, 110, 91, 134, 31, 63, 223,
        15, 157, 67, 6, 177, 196, 111, 106, 228, 247, 53, 132,
    ];
    assert_eq!(keccak256(&patterned(271)), output);
}

#[test]
fn digest_is_always_32_bytes() {
    for n in [0usize, 1, 7, 8, 9, 134, 135, 136, 137, 271, 272, 500] {
        assert_eq!(keccak256(&patterned(n)).len(), 32);
    }
}

#[test]
fn repeated_calls_agree() {
    let input = alice();
    assert_eq!(keccak256(&input), keccak256(&input));
    let short = vec![102, 111, 111, 98, 97, 114];
    assert_eq!(keccak256(&short), keccak256(&short.clone()));
}

#[test]
fn streaming_matches_one_shot() {
    let input = patterned(300);
    let mut hasher = KeccakHasher::new();
    for b in &input {
        hasher.update_byte(*b);
    }
    assert_eq!(hasher.finalize(), keccak256(&input));
}

#[test]
fn check_accepts_digest_and_prefix() {
    let expected = vec![
        21, 191, 54, 255, 99, 225, 69, 172, 52, 26, 134, 0, 126, 137, 21, 92, 243, 18, 222, 79,
        162, 167, 211, 173, 63, 188, 75, 120, 1, 3, 35, 72,
    ];
    assert!(keccak256check(&vec![197], &expected));
    assert!(keccak256check(&vec![197], &expected[..4].to_vec()));
    assert!(keccak256check(&vec![197], &vec![]));
}

#[test]
fn check_rejects_wrong_digest() {
    let mut wrong = keccak256(&vec![197]);
    wrong[31] ^= 1;
    assert!(!keccak256check(&vec![197], &wrong));
    assert!(!keccak256check(&vec![196], &keccak256(&vec![197])));
}

#[test]
fn lanes_to_bytes_little_endian() {
    let bytes = u64_vec_to_u8_vec(vec![0x0807060504030201, 0xff]);
    assert_eq!(bytes, vec![1, 2, 3, 4, 5, 6, 7, 8, 0xff, 0, 0, 0, 0, 0, 0, 0]);
    assert_eq!(u64_vec_to_u8_vec(vec![]), Vec::<u8>::new());
}

#[test]
fn bytes_to_lanes_zero_fills_last_lane() {
    let lanes = u8_vec_to_u64_vec(vec![1, 2, 3, 4, 5, 6, 7, 8, 9, 10]);
    assert_eq!(lanes, vec![0x0807060504030201, 0x0a09]);
    assert_eq!(u8_vec_to_u64_vec(vec![]), Vec::<u64>::new());
    assert_eq!(u8_vec_to_u64_vec(vec![0xab; 8]), vec![0xabababababababab]);
}
