use depthbook::book::{
    apply_deltas_side, remove_level, set_level, BookStore, Level, Side,
};

fn lvl(price: u64, size: u64) -> Level {
    Level { price, size }
}

#[test]
fn set_level_keeps_side_sorted() {
    let mut side: Vec<Level> = Vec::new();
    set_level(&mut side, 30, 1);
    set_level(&mut side, 10, 2);
    set_level(&mut side, 20, 3);
    assert_eq!(side, vec![lvl(10, 2), lvl(20, 3), lvl(30, 1)]);
}

#[test]
fn set_level_overwrites_existing_price() {
    let mut side: Vec<Level> = Vec::new();
    set_level(&mut side, 10, 2);
    set_level(&mut side, 10, 5);
    assert_eq!(side, vec![lvl(10, 5)]);
}

#[test]
fn remove_level_is_noop_when_absent() {
    let mut side: Vec<Level> = vec![lvl(10, 2)];
    remove_level(&mut side, 11);
    assert_eq!(side, vec![lvl(10, 2)]);
    remove_level(&mut side, 10);
    assert_eq!(side, Vec::new());
}

#[test]
fn last_write_wins_within_one_batch() {
    let mut side: Vec<Level> = Vec::new();
    let batch = vec![lvl(10, 1), lvl(10, 2)];
    apply_deltas_side(&mut side, &batch);
    assert_eq!(side, vec![lvl(10, 2)]);
    let erased = vec![lvl(10, 7), lvl(10, 0)];
    apply_deltas_side(&mut side, &erased);
    assert_eq!(side, Vec::new());
}

#[test]
fn applying_same_batch_twice_equals_once() {
    let mut book = BookStore::new();
    book.load_snapshot(&vec![lvl(10, 1), lvl(20, 2)], &Vec::new());
    let batch = vec![lvl(10, 3), lvl(15, 4), lvl(20, 0), lvl(15, 5)];
    book.apply_deltas(Side::Bid, &batch);
    let once = book.top(Side::Bid, 10);
    book.apply_deltas(Side::Bid, &batch);
    let twice = book.top(Side::Bid, 10);
    assert_eq!(once, twice);
    assert_eq!(once, vec![lvl(15, 5), lvl(10, 3)]);
}

#[test]
fn distinct_price_batches_apply_order_independently() {
    let mut one = BookStore::new();
    one.load_snapshot(&vec![lvl(20, 1)], &Vec::new());
    let mut other = one.clone();
    let batch = vec![lvl(10, 1), lvl(20, 0), lvl(30, 3)];
    let reversed: Vec<Level> = batch.iter().rev().copied().collect();
    one.apply_deltas(Side::Bid, &batch);
    other.apply_deltas(Side::Bid, &reversed);
    assert_eq!(one.top(Side::Bid, 10), other.top(Side::Bid, 10));
    assert_eq!(one.top(Side::Bid, 10), vec![lvl(30, 3), lvl(10, 1)]);
}

#[test]
fn top_orders_bids_descending_and_asks_ascending() {
    let mut book = BookStore::new();
    book.load_snapshot(
        &vec![lvl(20, 1), lvl(10, 2), lvl(30, 3)],
        &vec![lvl(50, 4), lvl(40, 5), lvl(60, 6)],
    );
    let bids = book.top(Side::Bid, 10);
    assert_eq!(bids, vec![lvl(30, 3), lvl(20, 1), lvl(10, 2)]);
    let asks = book.top(Side::Ask, 2);
    assert_eq!(asks, vec![lvl(40, 5), lvl(50, 4)]);
}

#[test]
fn snapshot_skips_zero_sizes_and_duplicates_keep_last() {
    let mut book = BookStore::new();
    book.load_snapshot(&vec![lvl(10, 0), lvl(20, 1), lvl(20, 9)], &Vec::new());
    assert_eq!(book.top(Side::Bid, 10), vec![lvl(20, 9)]);
}
