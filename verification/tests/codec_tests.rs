use erasure::codec::new_session;
use erasure::CodecError;

/// Deterministic pseudo-random bytes for test payloads.
fn fill_bytes(seed: u64, len: usize) -> Vec<u8> {
    let mut state = seed.wrapping_mul(0x9e3779b97f4a7c15).wrapping_add(1);
    let mut out = Vec::with_capacity(len);
    for _ in 0..len {
        state = state
            .wrapping_mul(6364136223846793005)
            .wrapping_add(1442695040888963407);
        out.push((state >> 33) as u8);
    }
    out
}

fn sample_data(k: usize, shard_len: usize) -> Vec<Vec<u8>> {
    (0..k).map(|i| fill_bytes(i as u64 + 7, shard_len)).collect()
}

#[test]
fn new_session_rejects_bad_configuration() {
    assert!(matches!(new_session(0, 2), Err(CodecError::Configuration)));
    assert!(matches!(new_session(0, 0), Err(CodecError::Configuration)));
    assert!(matches!(
        new_session(250, 10),
        Err(CodecError::Configuration)
    ));
    assert!(matches!(
        new_session(300, 0),
        Err(CodecError::Configuration)
    ));
    assert!(new_session(1, 255).is_ok());
    assert!(new_session(4, 2).is_ok());
    assert!(new_session(3, 0).is_ok());
}

#[test]
fn session_reports_counts() {
    let s = new_session(4, 2).unwrap();
    assert_eq!(s.data_shard_count(), 4);
    assert_eq!(s.parity_shard_count(), 2);
}

#[test]
fn encode_rejects_bad_shapes() {
    let s = new_session(4, 2).unwrap();
    // Wrong shard count.
    let three = sample_data(3, 16);
    assert_eq!(s.encode(&three), Err(CodecError::Shape));
    // Zero-length shards.
    let empty: Vec<Vec<u8>> = vec![vec![], vec![], vec![], vec![]];
    assert_eq!(s.encode(&empty), Err(CodecError::Shape));
    // Unequal lengths.
    let mut uneven = sample_data(4, 16);
    uneven[2].push(9);
    assert_eq!(s.encode(&uneven), Err(CodecError::Shape));
}

#[test]
fn encode_then_verify_holds() {
    let s = new_session(4, 2).unwrap();
    let data = sample_data(4, 64);
    let parity = s.encode(&data).unwrap();
    assert_eq!(parity.len(), 2);
    let mut shards = data.clone();
    shards.extend(parity.clone());
    assert_eq!(s.verify(&shards), Ok(true));
}

#[test]
fn verify_detects_any_flipped_bit() {
    let s = new_session(4, 2).unwrap();
    let data = sample_data(4, 32);
    let parity = s.encode(&data).unwrap();
    let mut shards = data.clone();
    shards.extend(parity);
    // A single flipped bit in either parity shard is caught.
    for p in 4..6 {
        for bit in 0..8 {
            let mut damaged = shards.clone();
            damaged[p][11] ^= 1 << bit;
            assert_eq!(s.verify(&damaged), Ok(false));
        }
    }
    // So is a corrupted data byte.
    let mut damaged = shards.clone();
    damaged[1][0] ^= 0x40;
    assert_eq!(s.verify(&damaged), Ok(false));
}

#[test]
fn verify_rejects_bad_shapes() {
    let s = new_session(4, 2).unwrap();
    let five = sample_data(5, 16);
    assert_eq!(s.verify(&five), Err(CodecError::Shape));
    let mut six = sample_data(6, 16);
    six[5].pop();
    assert_eq!(s.verify(&six), Err(CodecError::Shape));
}

#[test]
fn sessions_are_deterministic() {
    let s1 = new_session(4, 2).unwrap();
    let s2 = new_session(4, 2).unwrap();
    let data = sample_data(4, 128);
    assert_eq!(s1.encode(&data).unwrap(), s2.encode(&data).unwrap());
}

#[test]
fn reconstruct_small_data() {
    // Four 4096-byte data shards, two parity shards; lose one of each.
    let s = new_session(4, 2).unwrap();
    let data = sample_data(4, 4096);
    let parity = s.encode(&data).unwrap();
    let mut all = data.clone();
    all.extend(parity.clone());

    let mut shards: Vec<Option<Vec<u8>>> = all.iter().cloned().map(Some).collect();
    shards[0] = None;
    shards[4] = None;
    let restored = s.reconstruct(&shards).unwrap();
    assert_eq!(restored[0], data[0]);
    assert_eq!(restored[4], parity[0]);
    assert_eq!(restored, all);
    assert_eq!(s.verify(&restored), Ok(true));
}

#[test]
fn reconstruct_large_data() {
    // The same loss pattern on much larger shards: size-independent.
    let shard_len = 1 << 20;
    let s = new_session(4, 2).unwrap();
    let data = sample_data(4, shard_len);
    let parity = s.encode(&data).unwrap();
    let mut all = data.clone();
    all.extend(parity.clone());

    let mut shards: Vec<Option<Vec<u8>>> = all.iter().cloned().map(Some).collect();
    shards[0] = None;
    shards[4] = None;
    let restored = s.reconstruct(&shards).unwrap();
    assert_eq!(restored[0], data[0]);
    assert_eq!(restored[4], parity[0]);
    assert_eq!(restored, all);
}

#[test]
fn reconstruct_every_two_shard_loss() {
    let s = new_session(4, 2).unwrap();
    let data = sample_data(4, 97);
    let parity = s.encode(&data).unwrap();
    let mut all = data.clone();
    all.extend(parity);
    for a in 0..6 {
        for b in (a + 1)..6 {
            let mut shards: Vec<Option<Vec<u8>>> = all.iter().cloned().map(Some).collect();
            shards[a] = None;
            shards[b] = None;
            let restored = s.reconstruct(&shards).unwrap();
            assert_eq!(restored, all);
        }
    }
}

#[test]
fn reconstruct_with_nothing_missing() {
    let s = new_session(4, 2).unwrap();
    let data = sample_data(4, 33);
    let parity = s.encode(&data).unwrap();
    let mut all = data;
    all.extend(parity);
    let shards: Vec<Option<Vec<u8>>> = all.iter().cloned().map(Some).collect();
    assert_eq!(s.reconstruct(&shards).unwrap(), all);
}

#[test]
fn reconstruct_past_the_threshold_fails() {
    // m + 1 = 3 missing shards are inherent data loss, never a wrong answer.
    let s = new_session(4, 2).unwrap();
    let data = sample_data(4, 50);
    let parity = s.encode(&data).unwrap();
    let mut all = data;
    all.extend(parity);
    let mut shards: Vec<Option<Vec<u8>>> = all.iter().cloned().map(Some).collect();
    shards[1] = None;
    shards[3] = None;
    shards[5] = None;
    assert_eq!(s.reconstruct(&shards), Err(CodecError::InsufficientShards));
}

#[test]
fn reconstruct_rejects_bad_shapes() {
    let s = new_session(4, 2).unwrap();
    // Wrong slot count.
    let shards: Vec<Option<Vec<u8>>> = (0..5).map(|_| Some(vec![1u8; 8])).collect();
    assert_eq!(s.reconstruct(&shards), Err(CodecError::Shape));
    // Present shards of differing lengths.
    let mut shards: Vec<Option<Vec<u8>>> = (0..6).map(|_| Some(vec![1u8; 8])).collect();
    shards[3] = Some(vec![1u8; 9]);
    assert_eq!(s.reconstruct(&shards), Err(CodecError::Shape));
}

#[test]
fn zero_parity_session_tolerates_no_loss() {
    let s = new_session(3, 0).unwrap();
    let data = sample_data(3, 21);
    assert_eq!(s.encode(&data).unwrap().len(), 0);
    let shards: Vec<Option<Vec<u8>>> = data.iter().cloned().map(Some).collect();
    assert_eq!(s.reconstruct(&shards).unwrap(), data);
    let mut lossy = shards;
    lossy[0] = None;
    assert_eq!(s.reconstruct(&lossy), Err(CodecError::InsufficientShards));
}
