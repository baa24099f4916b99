use rolling_delta::delta::{block_map_from_signatures, delta, BlockInfo, DeltaScanner, Phase};
use rolling_delta::signature::BlockSignature;
use rolling_delta::weak_sum::WeakSum;
use rolling_delta::Command::{self, CopyBlock, Raw};
use rolling_delta::{diff, signature};

fn signature_4(data: &[u8]) -> Vec<BlockSignature> {
    signature(data, 4)
}

fn diff_4(signatures: Vec<BlockSignature>, data: &[u8]) -> Vec<Command> {
    diff(signatures, data, 4)
}

fn replay(commands: &[Command], old_file: &[u8], block_size: usize) -> Vec<u8> {
    let mut rebuilt = vec![];
    for command in commands {
        match command {
            Raw { data } => rebuilt.extend_from_slice(data),
            CopyBlock { index } => {
                rebuilt.extend_from_slice(&old_file[index * block_size..(index + 1) * block_size])
            }
        }
    }
    rebuilt
}

#[test]
fn test_diff() {
    let old_file = vec![1, 2, 3, 4, 10, 20, 30, 40];
    let new_file = vec![0, 1, 10, 20, 30, 40, 99, 1, 2, 3, 4, 55];
    let signature: Vec<_> = signature_4(&*old_file);
    let diff = diff_4(signature, &*new_file);
    assert_eq!(
        diff,
        [
            Raw { data: vec![0, 1] },
            CopyBlock { index: 1 },
            Raw { data: vec![99] },
            CopyBlock { index: 0 },
            Raw { data: vec![55] },
        ]
    );
}

#[test]
fn delta_gives_the_same_script_as_diff() {
    let old_file = vec![1, 2, 3, 4, 10, 20, 30, 40];
    let new_file = vec![0, 1, 10, 20, 30, 40, 99, 1, 2, 3, 4, 55];
    assert_eq!(
        delta(signature(&old_file, 4), &new_file, 4),
        diff(signature(&old_file, 4), &new_file, 4)
    );
}

#[test]
fn diff_of_overlapping_blocks() {
    let old_file = vec![1, 1, 1, 1];
    let new_file = vec![1, 1, 1, 1, 1];
    let diff = diff_4(signature_4(&old_file), &new_file);
    assert_eq!(diff, [CopyBlock { index: 0 }, Raw { data: vec![1] }]);
}

#[test]
fn diff_ends_with_an_empty_run_after_a_match() {
    let old_file = vec![1, 2, 3, 4, 10, 20, 30, 40];
    let new_file = vec![9, 10, 20, 30, 40];
    let diff = diff_4(signature_4(&old_file), &new_file);
    assert_eq!(
        diff,
        [Raw { data: vec![9] }, CopyBlock { index: 1 }, Raw { data: vec![] }]
    );
}

#[test]
fn diff_without_a_match_is_one_run() {
    let old_file = vec![1, 2, 3, 4, 10, 20, 30, 40];
    let new_file = vec![5, 6, 7, 8, 9, 10, 11, 12, 13];
    let diff = diff_4(signature_4(&old_file), &new_file);
    assert_eq!(diff, [Raw { data: new_file.clone() }]);
}

#[test]
fn diff_of_an_empty_stream_is_one_empty_run() {
    let diff = diff_4(signature_4(&[1, 2, 3, 4]), &[]);
    assert_eq!(diff, [Raw { data: vec![] }]);
}

#[test]
fn diff_against_no_signatures_is_one_run() {
    let diff = diff_4(vec![], &[1, 2, 3, 4, 5]);
    assert_eq!(diff, [Raw { data: vec![1, 2, 3, 4, 5] }]);
}

#[test]
fn diff_of_a_stream_shorter_than_a_block() {
    let diff = diff_4(signature_4(&[1, 2, 3, 4]), &[1, 2, 3]);
    assert_eq!(diff, [Raw { data: vec![1, 2, 3] }]);
}

#[test]
fn diff_of_the_old_stream_copies_every_block() {
    let old_file = vec![1, 2, 3, 4, 10, 20, 30, 40, 5];
    let diff = diff_4(signature_4(&old_file), &old_file);
    assert_eq!(
        diff,
        [CopyBlock { index: 0 }, CopyBlock { index: 1 }, Raw { data: vec![5] }]
    );
}

#[test]
fn diff_refers_to_the_last_of_two_equal_blocks() {
    let old_file = vec![1, 2, 3, 4, 1, 2, 3, 4];
    let diff = diff_4(signature_4(&old_file), &[1, 2, 3, 4]);
    assert_eq!(diff, [CopyBlock { index: 1 }, Raw { data: vec![] }]);
}

#[test]
fn diff_passes_over_a_block_with_the_checksum_of_another() {
    // [2, 0, 0, 2] and [1, 1, 1, 1] have the same checksum, a = 4 and b = 10,
    // and the block map keeps the later one only.
    let first = [2, 0, 0, 2];
    let second = [1, 1, 1, 1];
    assert_eq!(WeakSum::from(&first[..]), WeakSum::from(&second[..]));
    let old_file = [first, second].concat();
    let diff = diff_4(signature_4(&old_file), &old_file);
    assert_eq!(
        diff,
        [Raw { data: vec![2, 0, 0, 2] }, CopyBlock { index: 1 }, Raw { data: vec![] }]
    );
}

#[test]
fn diff_replayed_on_the_old_stream_is_the_new_stream() {
    let old_file: Vec<u8> = (0..200u32).map(|i| (i * 7 % 31) as u8).collect();
    let mut new_file = old_file[16..96].to_vec();
    new_file.extend_from_slice(&[250, 251, 252]);
    new_file.extend_from_slice(&old_file[0..50]);
    new_file.extend_from_slice(&old_file[120..200]);
    for block_size in [1u16, 2, 3, 8, 16, 64, 300] {
        let diff = diff(signature(&old_file, block_size), &new_file, block_size);
        assert_eq!(replay(&diff, &old_file, block_size as usize), new_file);
        assert!(matches!(diff.last(), Some(Raw { .. })));
        for pair in diff.windows(2) {
            if let Raw { data } = &pair[0] {
                assert!(!data.is_empty());
                assert!(matches!(pair[1], CopyBlock { .. }));
            }
        }
    }
}

#[test]
fn block_map_keeps_the_last_signature_of_a_checksum() {
    let signatures = signature(&[1, 2, 3, 4, 9, 9, 9, 9, 1, 2, 3, 4], 4);
    let strong = signatures[2].strong;
    let block_map = block_map_from_signatures(signatures);
    let found = block_map.get(&WeakSum::from(&[1, 2, 3, 4][..])).unwrap();
    assert_eq!(found.index, 2);
    assert_eq!(found.digest, strong);
    assert_eq!(block_map.get(&WeakSum::from(&[9, 9, 9, 9][..])).unwrap().index, 1);
    assert!(block_map.get(&WeakSum::from(&[4, 3, 2, 1][..])).is_none());
}

#[test]
fn scanner_moves_between_filling_and_matching() {
    let block_map = block_map_from_signatures(signature(&[1, 2, 3, 4], 2));
    let mut scanner = DeltaScanner::new(&block_map, 2);
    assert_eq!(scanner.phase(), Phase::Filling);
    assert!(scanner.feed(9).is_empty());
    assert_eq!(scanner.phase(), Phase::Filling);
    assert!(scanner.feed(3).is_empty());
    assert_eq!(scanner.phase(), Phase::Matching);
    assert_eq!(scanner.feed(4), [Raw { data: vec![9] }, CopyBlock { index: 1 }]);
    assert_eq!(scanner.phase(), Phase::Filling);
    assert!(scanner.feed(1).is_empty());
    assert_eq!(scanner.finish(), Raw { data: vec![1] });
}

#[test]
fn scanner_settles_a_candidate_by_its_digest() {
    let signatures = signature(&[1, 2, 3, 4], 2);
    let right = signatures[0].strong;
    let block_map = block_map_from_signatures(signatures);

    let mut scanner = DeltaScanner::new(&block_map, 2);
    assert!(scanner.advance(7).is_none());
    assert!(scanner.advance(1).is_none());
    let candidate: BlockInfo = scanner.advance(2).unwrap();
    assert_eq!(candidate.index, 0);
    assert_eq!(candidate.digest, right);

    let mut wrong = right;
    wrong[3] ^= 1;
    assert!(scanner.settle(candidate, wrong).is_empty());
    assert_eq!(scanner.phase(), Phase::Matching);
    assert_eq!(
        scanner.settle(candidate, right),
        [Raw { data: vec![7] }, CopyBlock { index: 0 }]
    );
    assert_eq!(scanner.phase(), Phase::Filling);
    assert_eq!(scanner.finish(), Raw { data: vec![] });
}
