use rolling_delta::chunker::Chunker;

fn all_chunks(chunk_size: u16, source: &[u8]) -> Vec<Option<Vec<u8>>> {
    let mut chunker = Chunker::new(chunk_size, source);
    let mut chunks = vec![];
    while let Some(chunk) = chunker.next() {
        chunks.push(Some(chunk));
    }
    chunks
}

#[test]
fn chunker_test_chunker() {
    let source = vec![1, 2, 3];

    let chunks_len_2: Vec<_> = all_chunks(2, &*source);
    assert_eq!(chunks_len_2, [Some(vec![1, 2])]);

    let chunks_len_3: Vec<_> = all_chunks(3, &*source);
    assert_eq!(chunks_len_3, [Some(vec![1, 2, 3])]);
}

#[test]
fn lib_test_chunker() {
    let source = vec![1, 2, 3];

    let chunks_len_2: Vec<_> = all_chunks(2, &*source);
    assert_eq!(chunks_len_2, [Some(vec![1, 2])]);

    let chunks_len_3: Vec<_> = all_chunks(3, &*source);
    assert_eq!(chunks_len_3, [Some(vec![1, 2, 3])]);
}

#[test]
fn chunker_collects_full_chunks_in_order() {
    let source: Vec<u8> = (0..10).collect();
    let chunks = Chunker::new(3, &source).collect();
    assert_eq!(chunks, [vec![0, 1, 2], vec![3, 4, 5], vec![6, 7, 8]]);
}

#[test]
fn chunker_drops_nothing_on_an_exact_multiple() {
    let source: Vec<u8> = (0..9).collect();
    let chunks = Chunker::new(3, &source).collect();
    assert_eq!(chunks.len(), 3);
    assert_eq!(chunks.concat(), source);
}

#[test]
fn chunker_of_a_short_source_has_no_chunk() {
    assert_eq!(Chunker::new(4, &[1, 2, 3]).collect(), Vec::<Vec<u8>>::new());
    assert_eq!(Chunker::new(1, &[]).collect(), Vec::<Vec<u8>>::new());
    assert_eq!(Chunker::new(4, &[1, 2, 3]).next(), None);
}

#[test]
fn chunker_stays_at_the_end_after_a_short_read() {
    let source = [1, 2, 3, 4, 5];
    let mut chunker = Chunker::new(2, &source);
    assert_eq!(chunker.next(), Some(vec![1, 2]));
    assert_eq!(chunker.next(), Some(vec![3, 4]));
    assert_eq!(chunker.next(), None);
    assert_eq!(chunker.next(), None);
}
