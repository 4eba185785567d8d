use lbr::chunks::{chunk_rows, PostgresChunks, PG_MAX_PARAMS};

#[test]
fn chunks_rows_by_size() {
    let rows = vec![1, 2, 3, 4, 5];
    let chunks = chunk_rows(&rows, 2);
    assert_eq!(chunks, vec![&[1, 2][..], &[3, 4][..], &[5][..]]);
    assert!(chunk_rows(&Vec::<i32>::new(), 3).is_empty());
    assert_eq!(chunk_rows(&rows, 5), vec![&rows[..]]);
}

#[test]
fn pg_chunks_fit_into_one_statement() {
    let pairs: Vec<(i32, i32)> = (0..40_000).map(|i| (i, i)).collect();
    let chunks = pairs.pg_chunks();
    assert_eq!(chunks.len(), 2);
    assert_eq!(chunks[0].len(), PG_MAX_PARAMS / 2);
    assert_eq!(chunks[1].len(), 40_000 - PG_MAX_PARAMS / 2);
    let sextuples: Vec<(i32, i32, i32, i32, i32, i32)> = (0..20_000).map(|i| (i, i, i, i, i, i)).collect();
    let chunks = sextuples.pg_chunks();
    assert_eq!(chunks.len(), 2);
    assert!(chunks.iter().all(|c| c.len() * 6 <= PG_MAX_PARAMS));
    assert_eq!(chunks.iter().map(|c| c.len()).sum::<usize>(), 20_000);
}
