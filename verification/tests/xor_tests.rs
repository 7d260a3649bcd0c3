use erasure::xor::encode_xor;
use erasure::xor::reconstruct_xor;
use erasure::CodecError;

fn fill_bytes(seed: u64, len: usize) -> Vec<u8> {
    let mut state = seed.wrapping_mul(0x9e3779b97f4a7c15).wrapping_add(1);
    let mut out = Vec::with_capacity(len);
    for _ in 0..len {
        state = state
            .wrapping_mul(6364136223846793005)
            .wrapping_add(1442695040888963407);
        out.push((state >> 33) as u8);
    }
    out
}

fn sample_blocks(count: usize, len: usize) -> Vec<Vec<u8>> {
    (0..count).map(|i| fill_bytes(i as u64 + 3, len)).collect()
}

#[test]
fn xor_parity_is_the_xor_of_all_blocks() {
    let blocks = vec![vec![0x0fu8, 0xf0], vec![0x33, 0x55], vec![0x01, 0x02]];
    let parity = encode_xor(&blocks).unwrap();
    assert_eq!(parity, vec![0x0f ^ 0x33 ^ 0x01, 0xf0 ^ 0x55 ^ 0x02]);
}

#[test]
fn xor_encode_rejects_bad_shapes() {
    let none: Vec<Vec<u8>> = vec![];
    assert_eq!(encode_xor(&none), Err(CodecError::Shape));
    let uneven = vec![vec![1u8, 2], vec![3u8]];
    assert_eq!(encode_xor(&uneven), Err(CodecError::Shape));
}

#[test]
fn xor_parity_is_order_independent() {
    let blocks = sample_blocks(4, 256);
    let parity = encode_xor(&blocks).unwrap();
    let mut swapped = blocks.clone();
    swapped.swap(0, 3);
    swapped.swap(1, 2);
    assert_eq!(encode_xor(&swapped).unwrap(), parity);
    let reversed: Vec<Vec<u8>> = blocks.iter().rev().cloned().collect();
    assert_eq!(encode_xor(&reversed).unwrap(), parity);
}

#[test]
fn xor_reconstruct_small_blocks() {
    // Four equal blocks, parity their XOR, block 2 lost.
    let block_len = 16 * 1024 / 4;
    let blocks = sample_blocks(4, block_len);
    let parity = encode_xor(&blocks).unwrap();
    let lost = blocks[2].clone();

    let mut shards: Vec<Option<Vec<u8>>> = blocks.clone().into_iter().map(Some).collect();
    shards[2] = None;
    let recovered = reconstruct_xor(&shards, &parity).unwrap();

    // The recovery is the parity XORed with blocks 0, 1 and 3 ...
    let mut manual = parity.clone();
    for t in [0usize, 1, 3] {
        for (i, b) in blocks[t].iter().enumerate() {
            manual[i] ^= b;
        }
    }
    assert_eq!(recovered, manual);
    // ... and is exactly the lost block.
    assert_eq!(recovered, lost);
}

#[test]
fn xor_reconstruct_large_blocks() {
    let block_len = 1 << 20;
    let blocks = sample_blocks(4, block_len);
    let parity = encode_xor(&blocks).unwrap();
    let lost = blocks[2].clone();
    let mut shards: Vec<Option<Vec<u8>>> = blocks.into_iter().map(Some).collect();
    shards[2] = None;
    assert_eq!(reconstruct_xor(&shards, &parity).unwrap(), lost);
}

#[test]
fn xor_reconstruct_each_single_loss() {
    let blocks = sample_blocks(5, 31);
    let parity = encode_xor(&blocks).unwrap();
    for t in 0..5 {
        let mut shards: Vec<Option<Vec<u8>>> = blocks.clone().into_iter().map(Some).collect();
        shards[t] = None;
        assert_eq!(reconstruct_xor(&shards, &parity).unwrap(), blocks[t]);
    }
}

#[test]
fn xor_reconstruct_with_nothing_missing_gives_zero() {
    // The parity cancels all blocks: the formula's answer is all zeroes.
    let blocks = sample_blocks(3, 40);
    let parity = encode_xor(&blocks).unwrap();
    let shards: Vec<Option<Vec<u8>>> = blocks.into_iter().map(Some).collect();
    assert_eq!(reconstruct_xor(&shards, &parity).unwrap(), vec![0u8; 40]);
}

#[test]
fn xor_reconstruct_two_missing_fails() {
    let blocks = sample_blocks(4, 24);
    let parity = encode_xor(&blocks).unwrap();
    let mut shards: Vec<Option<Vec<u8>>> = blocks.into_iter().map(Some).collect();
    shards[0] = None;
    shards[2] = None;
    assert_eq!(
        reconstruct_xor(&shards, &parity),
        Err(CodecError::InsufficientShards)
    );
}

#[test]
fn xor_reconstruct_rejects_bad_shapes() {
    let blocks = sample_blocks(4, 24);
    let parity = encode_xor(&blocks).unwrap();
    let mut shards: Vec<Option<Vec<u8>>> = blocks.into_iter().map(Some).collect();
    shards[1] = Some(vec![5u8; 23]);
    assert_eq!(reconstruct_xor(&shards, &parity), Err(CodecError::Shape));
}
