use brk_core::{
    classify_blk_file_name, clamp_parser_threads, prefers_tail, raised_fd_limit, spillover_len,
    tail_chunk_start, BlkDirEntry, BlkIndexToBlkPath, BlkName, BlkScanError, TailError, TailState,
    XORBytes, XORIndex, CHANNEL_CAPACITY, OUT_OF_ORDER_FILE_BACKOFF, TAIL_CHUNK,
};

const KEY: [u8; 8] = [0x11, 0x22, 0x33, 0x44, 0x55, 0x66, 0x77, 0x88];

#[test]
fn decode_at_xors_with_the_key_phase_of_the_offset() {
    let mut buf = [0u8; 4];
    XORIndex::decode_at(&mut buf, 6, XORBytes(KEY));
    assert_eq!(buf, [0x77, 0x88, 0x11, 0x22]);
}

#[test]
fn decode_at_twice_restores_the_input() {
    let plain: Vec<u8> = (0u8..50).collect();
    let mut buf = plain.clone();
    XORIndex::decode_at(&mut buf, 13, XORBytes(KEY));
    assert_ne!(buf, plain);
    XORIndex::decode_at(&mut buf, 13, XORBytes(KEY));
    assert_eq!(buf, plain);
}

#[test]
fn decode_at_with_identity_key_is_a_no_op() {
    let plain: Vec<u8> = (0u8..20).collect();
    let mut buf = plain.clone();
    XORIndex::decode_at(&mut buf, 3, XORBytes([0; 8]));
    assert_eq!(buf, plain);
    assert!(XORBytes([0; 8]).is_identity());
    assert!(!XORBytes(KEY).is_identity());
}

#[test]
fn split_decoding_matches_one_pass() {
    let plain: Vec<u8> = (0u8..40).map(|b| b.wrapping_mul(7)).collect();
    let mut whole = plain.clone();
    XORIndex::decode_at(&mut whole, 5, XORBytes(KEY));

    let mut split = plain.clone();
    let mut index = XORIndex::at_offset(5);
    let (head, tail) = split.split_at_mut(11);
    index.bytes(head, XORBytes(KEY));
    index.bytes(tail, XORBytes(KEY));
    assert_eq!(split, whole);
}

#[test]
fn xor_index_phase_wraps_modulo_the_key_length() {
    let mut index = XORIndex::at_offset(13);
    assert_eq!(index.phase(), 5);
    index.add_assign(4);
    assert_eq!(index.phase(), 1);
    index.set_phase(7);
    assert_eq!(index.phase(), 7);
}

#[test]
fn blk_file_names_are_classified() {
    assert_eq!(classify_blk_file_name(b"blk00042.dat"), BlkName::Index(42));
    assert_eq!(classify_blk_file_name(b"blk65535.dat"), BlkName::Index(65535));
    assert_eq!(classify_blk_file_name(b"blk65536.dat"), BlkName::Malformed);
    assert_eq!(classify_blk_file_name(b"blkxx.dat"), BlkName::Malformed);
    assert_eq!(classify_blk_file_name(b"rev00001.dat"), BlkName::Unrelated);
    assert_eq!(classify_blk_file_name(b"xor.dat"), BlkName::Unrelated);
    assert_eq!(classify_blk_file_name(b"index"), BlkName::Unrelated);
}

fn entry(name: &str, is_file: bool, path: &str) -> BlkDirEntry<String> {
    BlkDirEntry { name: Some(name.as_bytes().to_vec()), is_file, path: path.to_string() }
}

#[test]
fn blk_index_maps_every_blk_file_and_skips_the_rest() {
    let entries = vec![
        entry("blk00001.dat", true, "/b/1"),
        entry("xor.dat", true, "/b/xor"),
        entry("blk00000.dat", true, "/b/0"),
        entry("index", false, "/b/index"),
        BlkDirEntry { name: None, is_file: true, path: "/b/odd".to_string() },
    ];
    let map = BlkIndexToBlkPath::from_entries(entries).unwrap();
    assert_eq!(map.len(), 2);
    assert_eq!(map.get(0), Some(&"/b/0".to_string()));
    assert_eq!(map.get(1), Some(&"/b/1".to_string()));
    assert_eq!(map.get(2), None);
}

#[test]
fn blk_index_rejects_malformed_and_non_file_entries() {
    let malformed = vec![entry("blk00001.dat", true, "/b/1"), entry("blkx.dat", true, "/b/x")];
    assert_eq!(
        BlkIndexToBlkPath::from_entries(malformed).err(),
        Some(BlkScanError::MalformedName { position: 1 })
    );
    let not_file = vec![entry("blk00003.dat", false, "/b/3")];
    assert_eq!(
        BlkIndexToBlkPath::from_entries(not_file).err(),
        Some(BlkScanError::NotAFile { position: 0 })
    );
}

#[test]
fn tail_state_fills_out_of_order_and_finishes() {
    let mut state: TailState<u32> = TailState::new(3);
    assert_eq!(state.remaining(), 3);
    assert_eq!(state.lowest_missing(), Some(0));
    assert!(state.wants(2));
    assert!(!state.fill(2, 12));
    assert!(!state.wants(2));
    assert!(!state.wants(3));
    assert!(!state.fill(0, 10));
    assert_eq!(state.lowest_missing(), Some(1));
    assert!(state.fill(1, 11));
    assert_eq!(state.lowest_missing(), None);
    assert_eq!(state.finish(), Ok(vec![10, 11, 12]));
}

#[test]
fn tail_state_with_holes_reports_missing_blocks() {
    let mut state: TailState<u32> = TailState::new(2);
    state.fill(1, 5);
    assert_eq!(state.finish(), Err(TailError::MissingBlocks));
}

#[test]
fn tail_state_gives_up_after_the_backoff_of_files_below_the_window() {
    let mut state: TailState<u32> = TailState::new(4);
    for _ in 0..OUT_OF_ORDER_FILE_BACKOFF - 1 {
        assert_eq!(state.check_file(Some(50), 100), Ok(()));
    }
    assert_eq!(state.check_file(Some(50), 100), Err(TailError::WalkedPastWindow));
}

#[test]
fn tail_state_resets_the_streak_on_a_file_inside_the_window() {
    let mut state: TailState<u32> = TailState::new(4);
    for _ in 0..OUT_OF_ORDER_FILE_BACKOFF - 1 {
        assert_eq!(state.check_file(Some(50), 100), Ok(()));
    }
    assert_eq!(state.check_file(Some(100), 100), Ok(()));
    assert_eq!(state.check_file(None, 100), Ok(()));
    assert_eq!(state.check_file(Some(50), 100), Ok(()));
}

#[test]
fn tail_chunk_start_saturates_at_file_start() {
    assert_eq!(tail_chunk_start(TAIL_CHUNK + 5), 5);
    assert_eq!(tail_chunk_start(TAIL_CHUNK), 0);
    assert_eq!(tail_chunk_start(100), 0);
}

#[test]
fn spillover_carries_bytes_before_the_first_magic() {
    assert_eq!(spillover_len(Some(7), 100), 7);
    assert_eq!(spillover_len(None, 100), 100);
}

#[test]
fn tail_is_preferred_only_when_a_recent_file_reaches_the_window() {
    assert!(prefers_tail(1_000, &[None, Some(2_000), Some(999)]));
    assert!(prefers_tail(1_000, &[Some(1_000)]));
    assert!(!prefers_tail(1_000, &[Some(1_001), None]));
    assert!(!prefers_tail(0, &[Some(0)]));
}

#[test]
fn parser_threads_are_clamped() {
    assert_eq!(clamp_parser_threads(0), 1);
    assert_eq!(clamp_parser_threads(4), 4);
    assert_eq!(clamp_parser_threads(1_000), CHANNEL_CAPACITY);
}

#[test]
fn fd_limit_is_raised_only_upwards_and_within_the_hard_cap() {
    assert_eq!(raised_fd_limit(256, 4_096, 1_024), Some(1_024));
    assert_eq!(raised_fd_limit(256, 512, 1_024), Some(512));
    assert_eq!(raised_fd_limit(2_048, 4_096, 1_024), None);
    assert_eq!(raised_fd_limit(512, 512, 1_024), None);
}

#[test]
fn identity_key_still_advances_the_phase() {
    let plain: Vec<u8> = (0u8..11).collect();
    let mut buf = plain.clone();
    let mut index = XORIndex::at_offset(6);
    index.bytes(&mut buf, XORBytes([0; 8]));
    assert_eq!(buf, plain);
    assert_eq!(index.phase(), (6 + 11) % 8);
}

#[test]
fn decoding_two_halves_of_a_split_buffer_matches_one_pass() {
    let data: Vec<u8> = (0u8..23).map(|b| b.wrapping_mul(37)).collect();
    let mut whole = data.clone();
    let mut one = XORIndex::at_offset(5);
    one.bytes(&mut whole, XORBytes(KEY));

    let mut halves = data.clone();
    let mut two = XORIndex::at_offset(5);
    let (left, right) = halves.split_at_mut(10);
    two.bytes(left, XORBytes(KEY));
    two.bytes(right, XORBytes(KEY));

    assert_eq!(whole, halves);
    assert_eq!(one.phase(), two.phase());
    assert_eq!(one.phase(), (5 + 23) % 8);
}
