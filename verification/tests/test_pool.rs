use bookworm::book_worker::BookSide;
use bookworm::bookworker::{LevelPool, PoolError, KEEP_LEVELS};
use bookworm::data_tunnel::PxQtLadder;

fn ladder(levels: &[(&str, &str)]) -> PxQtLadder {
    levels.iter().map(|(p, q)| [p.to_string(), q.to_string()]).collect()
}

#[test]
fn pool_keeps_the_highest_bids() {
    let mut pool = LevelPool::new();
    let bids: Vec<(String, String)> = (0..8).map(|i| (format!("{}", 100 - i), "1".to_string())).collect();
    let bids_ref: Vec<(&str, &str)> = bids.iter().map(|(p, q)| (p.as_str(), q.as_str())).collect();
    assert_eq!(pool.update(BookSide::A, &ladder(&bids_ref), &ladder(&[("101", "1")])), Ok(()));
    assert_eq!(pool.bids.len(), 8);
    let more: Vec<(String, String)> = (0..8).map(|i| (format!("{}.5", 99 - i), "2".to_string())).collect();
    let more_ref: Vec<(&str, &str)> = more.iter().map(|(p, q)| (p.as_str(), q.as_str())).collect();
    assert_eq!(pool.update(BookSide::B, &ladder(&more_ref), &ladder(&[("102", "1")])), Ok(()));
    assert_eq!(pool.bids.len(), KEEP_LEVELS);
    let mut kept: Vec<f64> = pool.bids.iter().map(|l| l.price.parse().unwrap()).collect();
    kept.sort_by(|a, b| b.partial_cmp(a).unwrap());
    assert_eq!(kept, vec![100.0, 99.5, 99.0, 98.5, 98.0, 97.5, 97.0, 96.5, 96.0, 95.5]);
    assert_eq!(pool.asks.len(), 2);
    assert_eq!(pool.asks[0].exchange, "Binance");
    assert_eq!(pool.asks[1].exchange, "Bitstamp");
}

#[test]
fn pool_refuses_non_numbers() {
    let mut pool = LevelPool::new();
    assert_eq!(pool.update(BookSide::A, &ladder(&[("1", "x")]), &ladder(&[])), Err(PoolError::InvalidNumber));
    assert_eq!(pool.update(BookSide::A, &ladder(&[("1", "1")]), &ladder(&[("y", "1")])), Err(PoolError::InvalidNumber));
    assert!(pool.bids.is_empty());
    assert!(pool.asks.is_empty());
}

#[test]
fn pool_error_message() {
    assert_eq!(PoolError::InvalidNumber.to_string(), "invalid float literal");
}

#[test]
fn pool_keeps_the_lowest_asks() {
    let mut pool = LevelPool::new();
    let asks: Vec<(String, String)> = (0..12).map(|i| (format!("{}", 120 - i), "1".to_string())).collect();
    let asks_ref: Vec<(&str, &str)> = asks.iter().map(|(p, q)| (p.as_str(), q.as_str())).collect();
    assert_eq!(pool.update(BookSide::B, &ladder(&[]), &ladder(&asks_ref)), Ok(()));
    assert_eq!(pool.asks.len(), KEEP_LEVELS);
    let mut kept: Vec<f64> = pool.asks.iter().map(|l| l.price.parse().unwrap()).collect();
    kept.sort_by(|a, b| a.partial_cmp(b).unwrap());
    assert_eq!(kept, vec![109.0, 110.0, 111.0, 112.0, 113.0, 114.0, 115.0, 116.0, 117.0, 118.0]);
}

#[test]
fn pool_takes_a_single_nan_level() {
    let mut pool = LevelPool::new();
    assert_eq!(pool.update(BookSide::A, &ladder(&[("NaN", "1")]), &ladder(&[])), Ok(()));
    assert_eq!(pool.bids.len(), 1);
}

#[test]
fn pool_holds_the_best_of_every_update() {
    let mut pool = LevelPool::new();
    let mut all_bids: Vec<i64> = Vec::new();
    let mut all_asks: Vec<i64> = Vec::new();
    for round in 0..7i64 {
        let bids: Vec<(String, String)> = (0..4).map(|i| (format!("{}", (round * 37 + i * 11) % 90), "1".to_string())).collect();
        let asks: Vec<(String, String)> = (0..3).map(|i| (format!("{}", 100 + (round * 23 + i * 7) % 50), "1".to_string())).collect();
        all_bids.extend(bids.iter().map(|(p, _)| p.parse::<i64>().unwrap()));
        all_asks.extend(asks.iter().map(|(p, _)| p.parse::<i64>().unwrap()));
        let bids_ref: Vec<(&str, &str)> = bids.iter().map(|(p, q)| (p.as_str(), q.as_str())).collect();
        let asks_ref: Vec<(&str, &str)> = asks.iter().map(|(p, q)| (p.as_str(), q.as_str())).collect();
        let side = if round % 2 == 0 { BookSide::A } else { BookSide::B };
        assert_eq!(pool.update(side, &ladder(&bids_ref), &ladder(&asks_ref)), Ok(()));
        let mut want_bids = all_bids.clone();
        want_bids.sort_by(|a, b| b.cmp(a));
        want_bids.truncate(KEEP_LEVELS);
        let mut want_asks = all_asks.clone();
        want_asks.sort();
        want_asks.truncate(KEEP_LEVELS);
        let mut kept_bids: Vec<i64> = pool.bids.iter().map(|l| l.price.parse().unwrap()).collect();
        kept_bids.sort_by(|a, b| b.cmp(a));
        let mut kept_asks: Vec<i64> = pool.asks.iter().map(|l| l.price.parse().unwrap()).collect();
        kept_asks.sort();
        assert_eq!(kept_bids, want_bids);
        assert_eq!(kept_asks, want_asks);
    }
}
