use bulletformat::ataxx::AtaxxBoard;
use bulletformat::format::{encode_records, decode_records, BulletFormat};
use bulletformat::loader::{record_count, batches_per_load, split_batches};

fn sample() -> AtaxxBoard {
    AtaxxBoard::from_str("6b/2r4/1rr4/1rb2bb/2bb3/7/5bb r 3 11 | -570 | 0.0").unwrap()
}

#[test]
fn record_size_is_declared_size() {
    // the binary size of the record equals its declared layout size
    assert_eq!(AtaxxBoard::data_size(), 32);
    assert_eq!(sample().to_bytes().len(), 32);
}

#[test]
fn bytes_roundtrip() {
    let board = sample();
    let bytes = board.to_bytes();
    let back = AtaxxBoard::from_bytes(&bytes);
    assert_eq!(back, board);
    assert_eq!(back.render(), board.render());
}

#[test]
fn feature_iteration_deterministic() {
    // two fresh reconstructions from the same bytes iterate identically
    let bytes = sample().to_bytes();
    let a = AtaxxBoard::from_bytes(&bytes).features();
    let b = AtaxxBoard::from_bytes(&bytes).features();
    assert_eq!(a, b);
    assert!(a.len() <= AtaxxBoard::max_features());
}

#[test]
fn feature_iteration_order() {
    // bottom-left pair of `b` pieces on an otherwise empty board
    let board = AtaxxBoard::from_str("7/7/7/7/7/7/bb5 r 0 1 | 0 | 0.5").unwrap();
    // `b` is the opponent of the `r` mover: plane 1, cells 0 and 1
    assert_eq!(board.features(), vec![(1, 0), (1, 1)]);
    let mut it = board.into_iter();
    assert_eq!(it.next(), Some((1, 0)));
    assert_eq!(it.next(), Some((1, 1)));
    assert_eq!(it.next(), None);
    assert_eq!(it.next(), None);
}

#[test]
fn three_record_file() {
    let records = vec![sample(), sample(), sample()];
    let bytes = encode_records(&records);
    assert_eq!(bytes.len(), 96);
    // a file of three 32-byte records reports three records
    assert_eq!(record_count(bytes.len(), AtaxxBoard::data_size()), 3);
    let back: Vec<AtaxxBoard> = decode_records(&bytes);
    assert_eq!(back, records);
    // batch size 2 yields batches of length 2 then 1
    let batches = split_batches(&back, 2);
    assert_eq!(batches.len(), 2);
    assert_eq!(batches[0].len(), 2);
    assert_eq!(batches[1].len(), 1);
    let total: usize = batches.iter().map(|b| b.len()).sum();
    assert_eq!(total, 3);
}

#[test]
fn trailing_partial_record_dropped() {
    let records = vec![sample(), sample()];
    let mut bytes = encode_records(&records);
    bytes.push(7);
    bytes.push(7);
    let back: Vec<AtaxxBoard> = decode_records(&bytes);
    assert_eq!(back.len(), 2);
    assert_eq!(back, records);
}

#[test]
fn loader_planning() {
    // a 512 MiB budget of 32-byte records at batch size 16384
    assert_eq!(batches_per_load(512 * 1024 * 1024, 32, 16384), 1024);
    // a tiny budget still loads one whole batch at a time
    assert_eq!(batches_per_load(16, 32, 4), 1);
    assert_eq!(record_count(95, 32), 2);
    assert_eq!(record_count(0, 32), 0);
}
