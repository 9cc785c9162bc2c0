use bulletformat::ataxx::AtaxxBoard;
use bulletformat::convert::{split_for_workers, map_records, concat_chunks};

fn boards() -> Vec<AtaxxBoard> {
    let fens = [
        "6b/2r4/1rr4/1rb2bb/2bb3/7/5bb r 3 11 | -570 | 0.0",
        "6b/7/5r1/3rrrr/4brr/4bbb/3r1bb b 1 14 | 120 | 0.0",
        "r1rr3/1r1r3/2-b-r1/r1bbrrr/2-b-rr/1bbbbbb/1bbbrbb b 1 30 | -840 | 0.0",
        "7/7/7/7/7/7/7 r 0 1 | 0 | 0.5",
        "7/7/7/7/7/7/bb5 r 0 1 | 7 | 1.0",
    ];
    fens.iter().map(|f| AtaxxBoard::from_str(f).unwrap()).collect()
}

#[test]
fn conversion_preserves_order_for_any_worker_count() {
    let batch = boards();
    let f = |b: AtaxxBoard| (b.score(), b.result_idx());
    let expected: Vec<(i16, usize)> = batch.iter().map(|&b| f(b)).collect();
    for threads in [1, 2, 8] {
        let chunks = split_for_workers(&batch, threads);
        let mut converted = Vec::new();
        for chunk in &chunks {
            converted.push(map_records(chunk, &f));
        }
        let joined = concat_chunks(converted);
        assert_eq!(joined, expected);
    }
}

#[test]
fn worker_chunks_cover_batch() {
    let batch = boards();
    for threads in [1, 2, 3, 8] {
        let chunks = split_for_workers(&batch, threads);
        assert!(chunks.len() <= threads);
        let total: usize = chunks.iter().map(|c| c.len()).sum();
        assert_eq!(total, batch.len());
        let rejoined: Vec<AtaxxBoard> = concat_chunks(chunks);
        assert_eq!(rejoined, batch);
    }
}

#[test]
fn empty_batch_yields_no_chunks() {
    let batch: Vec<AtaxxBoard> = Vec::new();
    let chunks = split_for_workers(&batch, 4);
    assert!(chunks.is_empty());
}
