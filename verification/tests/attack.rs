use aes::Aes128;
use block_modes::block_padding::Pkcs7;
use block_modes::{BlockMode, Cbc};

use padding_oracle::adversary::{
    break_block_byte, determine_padding, Adversary, AttackError, ProgressReporter,
};
use padding_oracle::oracle::Oracle;

type Aes128Cbc = Cbc<Aes128, Pkcs7>;

const KEY: &[u8; 16] = b"sixteen byte key";
const IV: &[u8; 16] = b"sixteen byte iv!";

fn encrypt(key: &[u8], iv: &[u8], plain: &[u8]) -> Vec<u8> {
    let cipher = Aes128Cbc::new_from_slices(key, iv).unwrap();
    cipher.encrypt_vec(plain)
}

fn blocks_of(iv: &[u8], cipher: &[u8]) -> Vec<Vec<u8>> {
    let mut blocks: Vec<Vec<u8>> = vec![iv.to_vec()];
    for chunk in cipher.chunks_exact(16) {
        blocks.push(chunk.to_vec());
    }
    blocks
}

fn run_attack(key: &[u8], iv: &[u8], cipher: &[u8]) -> Result<Vec<u8>, AttackError> {
    let oracle = Oracle::new(key);
    let mut adversary = Adversary::new(oracle, iv.to_vec(), cipher.to_vec());
    adversary.break_ciphertext()
}

#[test]
fn recovers_yellow_submarine_with_full_padding_block() {
    let plain = b"YELLOW SUBMARINE";
    let cipher = encrypt(KEY, IV, plain);
    assert_eq!(cipher.len(), 32);

    // the last block is pure padding of length 16
    let oracle = Oracle::new(KEY);
    let blocks = blocks_of(IV, &cipher);
    let mut queries = 0u64;
    assert_eq!(determine_padding(&oracle, &blocks, &mut queries), Some(16));

    let recovered = run_attack(KEY, IV, &cipher).unwrap();
    assert_eq!(recovered, plain.to_vec());
}

#[test]
fn recovers_single_byte_message() {
    let plain = b"A";
    let cipher = encrypt(KEY, IV, plain);
    assert_eq!(cipher.len(), 16);

    let oracle = Oracle::new(KEY);
    let blocks = blocks_of(IV, &cipher);
    let mut queries = 0u64;
    assert_eq!(determine_padding(&oracle, &blocks, &mut queries), Some(15));

    let recovered = run_attack(KEY, IV, &cipher).unwrap();
    assert_eq!(recovered, b"A".to_vec());
}

#[test]
fn recovers_multi_block_message_in_order() {
    let plain = b"0123456789012345ABCDE";
    let cipher = encrypt(KEY, IV, plain);
    assert_eq!(cipher.len(), 32);

    let oracle = Oracle::new(KEY);
    let blocks = blocks_of(IV, &cipher);
    let mut queries = 0u64;
    assert_eq!(determine_padding(&oracle, &blocks, &mut queries), Some(11));

    let recovered = run_attack(KEY, IV, &cipher).unwrap();
    assert_eq!(recovered, plain.to_vec());
}

#[test]
fn round_trip_over_every_padding_length() {
    // message lengths 1..=48 exercise every padding length 1..=16 over one,
    // two and three ciphertext blocks
    for len in 1usize..=48 {
        let plain: Vec<u8> = (0..len).map(|i| (i as u8).wrapping_mul(37).wrapping_add(11)).collect();
        let cipher = encrypt(KEY, IV, &plain);
        let recovered = run_attack(KEY, IV, &cipher).unwrap();
        assert_eq!(recovered, plain, "round trip failed at message length {}", len);
    }
}

#[test]
fn padding_discovery_exact_for_every_length() {
    // a message of length 32 - k carries padding of exactly k bytes
    for k in 1usize..=16 {
        let plain = vec![b'Z'; 32 - k];
        let cipher = encrypt(KEY, IV, &plain);
        let oracle = Oracle::new(KEY);
        let blocks = blocks_of(IV, &cipher);
        let mut queries = 0u64;
        assert_eq!(determine_padding(&oracle, &blocks, &mut queries), Some(k));
        // discovery walks the block front to back and stops at the first
        // padding byte: 17 - k queries, never more than 16
        assert_eq!(queries as usize, 17 - k);
        assert!(queries <= 16);
    }
}

#[test]
fn byte_breaking_finds_each_byte() {
    let plain = b"YELLOW SUBMARINE";
    let cipher = encrypt(KEY, IV, plain);
    // the second ciphertext block decrypts to a full padding block: sixteen
    // bytes of 0x10 under the first block as predecessor
    let c1 = cipher[..16].to_vec();
    let c2 = cipher[16..].to_vec();
    let oracle = Oracle::new(KEY);
    let mut queries = 0u64;

    // last byte, with the disambiguating re-test
    let m2 = vec![0u8; 16];
    let m2 = break_block_byte(&oracle, &c1, &c2, &m2, 0, &mut queries).unwrap();
    assert_eq!(m2[15], 0x10);

    // next byte: exactly one candidate matches, and it extends the run
    let m2 = break_block_byte(&oracle, &c1, &c2, &m2, 1, &mut queries).unwrap();
    assert_eq!(m2[14], 0x10);
    assert_eq!(m2[15], 0x10);
}

#[test]
fn byte_breaking_recovers_text_block() {
    let plain = b"YELLOW SUBMARINE";
    let cipher = encrypt(KEY, IV, plain);
    // the first ciphertext block decrypts to the message itself under the IV
    let c2 = cipher[..16].to_vec();
    let oracle = Oracle::new(KEY);
    let mut queries = 0u64;
    let mut m2 = vec![0u8; 16];
    for known in 0usize..16 {
        m2 = break_block_byte(&oracle, &IV.to_vec(), &c2, &m2, known, &mut queries).unwrap();
    }
    assert_eq!(m2, plain.to_vec());
}

#[test]
fn query_count_stays_under_bound() {
    for len in [1usize, 16, 21, 40] {
        let plain = vec![b'q'; len];
        let cipher = encrypt(KEY, IV, &plain);
        let n_blocks = cipher.len() / 16;
        let oracle = Oracle::new(KEY);
        let mut adversary = Adversary::new(oracle, IV.to_vec(), cipher);
        let before = adversary.query_count();
        adversary.break_ciphertext().unwrap();
        let spent = adversary.query_count() - before;
        assert!(spent as usize <= 16 + 16 * n_blocks * 257);
    }
}

#[test]
fn malformed_input_is_rejected_before_any_query() {
    let plain = b"YELLOW SUBMARINE";
    let cipher = encrypt(KEY, IV, plain);

    // empty ciphertext
    let mut adversary = Adversary::new(Oracle::new(KEY), IV.to_vec(), Vec::new());
    assert_eq!(adversary.break_ciphertext(), Err(AttackError::MalformedInput));
    assert_eq!(adversary.query_count(), 0);

    // ciphertext not a multiple of the block size
    let mut adversary = Adversary::new(Oracle::new(KEY), IV.to_vec(), cipher[..17].to_vec());
    assert_eq!(adversary.break_ciphertext(), Err(AttackError::MalformedInput));
    assert_eq!(adversary.query_count(), 0);

    // IV that is not one block
    let mut adversary = Adversary::new(Oracle::new(KEY), IV[..8].to_vec(), cipher.clone());
    assert_eq!(adversary.break_ciphertext(), Err(AttackError::MalformedInput));
    assert_eq!(adversary.query_count(), 0);
}

struct CountingReporter {
    calls: usize,
    last_known: usize,
    total_blocks: usize,
}

impl ProgressReporter for CountingReporter {
    fn report(
        &mut self,
        _recovered: &Vec<u8>,
        current: &Vec<u8>,
        bytes_known: usize,
        total_blocks: usize,
    ) {
        assert_eq!(current.len(), 16);
        self.calls += 1;
        self.last_known = bytes_known;
        self.total_blocks = total_blocks;
    }
}

#[test]
fn progress_reporter_sees_every_solved_byte() {
    let plain = b"0123456789012345ABCDE";
    let cipher = encrypt(KEY, IV, plain);
    let oracle = Oracle::new(KEY);
    let mut adversary = Adversary::new(oracle, IV.to_vec(), cipher);
    let mut reporter = CountingReporter { calls: 0, last_known: 0, total_blocks: 0 };
    let recovered = adversary.break_ciphertext_reporting(&mut reporter).unwrap();
    assert_eq!(recovered, plain.to_vec());
    // 11 padding bytes were seeded, so 5 + 16 bytes are solved one by one
    assert_eq!(reporter.calls, 21);
    assert_eq!(reporter.last_known, 16);
    assert_eq!(reporter.total_blocks, 3);
}
