use bookworm::book_worker::Merger;
use bookworm::data_tunnel::{create_data_tunnel, PxQtLadder};
use bookworm::data_types::{ExchangePriceLevel, Summary};

fn create_price_ladder(prices: &[[&str; 2]]) -> PxQtLadder {
    prices.iter().map(|price_amount| [price_amount[0].to_string(), price_amount[1].to_string()]).collect()
}

fn create_test_worker() -> (Merger, Vec<ExchangePriceLevel>) {
    let (_, rx_a) = create_data_tunnel();
    let (_, rx_b) = create_data_tunnel();
    let worker = Merger::new(3, "BinanceT".to_string(), rx_a, "BitstampT".to_string(), rx_b);
    let merged = Vec::new();
    (worker, merged)
}

#[test]
fn test_merge_bids_with_different_prices() {
    let (mut worker, mut merged) = create_test_worker();

    let binance_bids = create_price_ladder(&[["100.0", "1.0"], ["98.0", "2.0"], ["96.0", "3.0"]]);
    let bitstamp_bids = create_price_ladder(&[["101.0", "4.0"], ["99.0", "5.0"], ["94.0", "6.0"]]);

    worker.merge_bids("BinanceT", &binance_bids, "BitstampT", &bitstamp_bids, &mut merged);

    assert_eq!(merged.len(), 3);
    assert_eq!(merged[0].exchange, "BitstampT");
    assert_eq!(merged[0].price.parse::<f64>().unwrap(), 101.0);
    assert_eq!(merged[0].amount.parse::<f64>().unwrap(), 4.0);
    assert_eq!(merged[1].exchange, "BinanceT");
    assert_eq!(merged[1].price.parse::<f64>().unwrap(), 100.0);
    assert_eq!(merged[1].amount.parse::<f64>().unwrap(), 1.0);
    assert_eq!(merged[2].exchange, "BitstampT");
    assert_eq!(merged[2].price.parse::<f64>().unwrap(), 99.0);
    assert_eq!(merged[2].amount.parse::<f64>().unwrap(), 5.0);
}

#[test]
fn test_merge_bids_with_same_prices() {
    let (mut worker, mut merged) = create_test_worker();
    let binance_bids = create_price_ladder(&[["100.0", "1.0"], ["98.0", "2.0"], ["96.0", "3.0"]]);
    let bitstamp_bids = create_price_ladder(&[["100.0", "4.0"], ["99.0", "5.0"], ["94.0", "6.0"]]);

    worker.merge_bids("BinanceT", &binance_bids, "BitstampT", &bitstamp_bids, &mut merged);

    assert_eq!(merged.len(), 3);
    assert_eq!(merged[0].exchange, "BinanceT");
    assert_eq!(merged[0].price.parse::<f64>().unwrap(), 100.0);
    assert_eq!(merged[0].amount.parse::<f64>().unwrap(), 1.0);
    assert_eq!(merged[1].exchange, "BitstampT");
    assert_eq!(merged[1].price.parse::<f64>().unwrap(), 100.0);
    assert_eq!(merged[1].amount.parse::<f64>().unwrap(), 4.0);
    assert_eq!(merged[2].exchange, "BitstampT");
    assert_eq!(merged[2].price.parse::<f64>().unwrap(), 99.0);
    assert_eq!(merged[2].amount.parse::<f64>().unwrap(), 5.0);
}

#[test]
fn test_merge_asks_with_different_prices() {
    let (mut worker, mut merged) = create_test_worker();
    let binance_asks = create_price_ladder(&[["96.0", "3.0"], ["98.0", "2.0"], ["100.0", "1.0"]]);
    let bitstamp_asks = create_price_ladder(&[["94.0", "6.0"], ["99.0", "5.0"], ["101.0", "4.0"]]);

    worker.merge_asks("BinanceT", &binance_asks, "BitstampT", &bitstamp_asks, &mut merged);

    assert_eq!(merged.len(), 3);
    assert_eq!(merged[0].exchange, "BitstampT");
    assert_eq!(merged[0].price.parse::<f64>().unwrap(), 94.0);
    assert_eq!(merged[0].amount.parse::<f64>().unwrap(), 6.0);
    assert_eq!(merged[1].exchange, "BinanceT");
    assert_eq!(merged[1].price.parse::<f64>().unwrap(), 96.0);
    assert_eq!(merged[1].amount.parse::<f64>().unwrap(), 3.0);
    assert_eq!(merged[2].exchange, "BinanceT");
    assert_eq!(merged[2].price.parse::<f64>().unwrap(), 98.0);
    assert_eq!(merged[2].amount.parse::<f64>().unwrap(), 2.0);
}

#[test]
fn test_merge_asks_with_same_prices() {
    let (mut worker, mut merged) = create_test_worker();
    let binance_asks = create_price_ladder(&[["96.0", "3.0"], ["98.0", "2.0"], ["100.0", "1.0"]]);
    let bitstamp_asks = create_price_ladder(&[["96.0", "6.0"], ["99.0", "5.0"], ["101.0", "4.0"]]);

    worker.merge_asks("BinanceT", &binance_asks, "BitstampT", &bitstamp_asks, &mut merged);

    assert_eq!(merged.len(), 3);
    assert_eq!(merged[0].exchange, "BinanceT");
    assert_eq!(merged[0].price.parse::<f64>().unwrap(), 96.0);
    assert_eq!(merged[0].amount.parse::<f64>().unwrap(), 3.0);
    assert_eq!(merged[1].exchange, "BitstampT");
    assert_eq!(merged[1].price.parse::<f64>().unwrap(), 96.0);
    assert_eq!(merged[1].amount.parse::<f64>().unwrap(), 6.0);
    assert_eq!(merged[2].exchange, "BinanceT");
    assert_eq!(merged[2].price.parse::<f64>().unwrap(), 98.0);
    assert_eq!(merged[2].amount.parse::<f64>().unwrap(), 2.0);
}

#[test]
fn test_merge_empty_onto_asks() {
    let (mut worker, mut merged) = create_test_worker();
    let binance_asks = create_price_ladder(&[]);
    let bitstamp_asks = create_price_ladder(&[["96.0", "6.0"], ["99.0", "5.0"], ["101.0", "4.0"]]);

    worker.merge_asks("BinanceT", &binance_asks, "BitstampT", &bitstamp_asks, &mut merged);

    assert_eq!(merged.len(), 3);
    assert_eq!(merged[0].exchange, "BitstampT");
    assert_eq!(merged[0].price.parse::<f64>().unwrap(), 96.0);
    assert_eq!(merged[0].amount.parse::<f64>().unwrap(), 6.0);
    assert_eq!(merged[1].exchange, "BitstampT");
    assert_eq!(merged[1].price.parse::<f64>().unwrap(), 99.0);
    assert_eq!(merged[1].amount.parse::<f64>().unwrap(), 5.0);
    assert_eq!(merged[2].exchange, "BitstampT");
    assert_eq!(merged[2].price.parse::<f64>().unwrap(), 101.0);
    assert_eq!(merged[2].amount.parse::<f64>().unwrap(), 4.0);
}

#[test]
fn test_merge_asks_with_empty_book() {
    let (mut worker, mut merged) = create_test_worker();
    let binance_asks = create_price_ladder(&[]);
    let bitstamp_asks = create_price_ladder(&[["96.0", "6.0"], ["99.0", "5.0"], ["101.0", "4.0"]]);

    worker.merge_asks("BitstampT", &bitstamp_asks, "BinanceT", &binance_asks, &mut merged);

    assert_eq!(merged.len(), 3);
    assert_eq!(merged[0].exchange, "BitstampT");
    assert_eq!(merged[0].price.parse::<f64>().unwrap(), 96.0);
    assert_eq!(merged[0].amount.parse::<f64>().unwrap(), 6.0);
    assert_eq!(merged[1].exchange, "BitstampT");
    assert_eq!(merged[1].price.parse::<f64>().unwrap(), 99.0);
    assert_eq!(merged[1].amount.parse::<f64>().unwrap(), 5.0);
    assert_eq!(merged[2].exchange, "BitstampT");
    assert_eq!(merged[2].price.parse::<f64>().unwrap(), 101.0);
    assert_eq!(merged[2].amount.parse::<f64>().unwrap(), 4.0);
}

#[test]
fn test_merge_empty_onto_bids() {
    let (mut worker, mut merged) = create_test_worker();
    let bitstamp_bids = create_price_ladder(&[]);
    let binance_bids = create_price_ladder(&[["100.0", "1.0"], ["98.0", "2.0"], ["96.0", "3.0"]]);

    worker.merge_asks("BitstampT", &bitstamp_bids, "BinanceT", &binance_bids, &mut merged);

    assert_eq!(merged.len(), 3);
    assert_eq!(merged[0].exchange, "BinanceT");
    assert_eq!(merged[0].price.parse::<f64>().unwrap(), 100.0);
    assert_eq!(merged[0].amount.parse::<f64>().unwrap(), 1.0);
    assert_eq!(merged[1].exchange, "BinanceT");
    assert_eq!(merged[1].price.parse::<f64>().unwrap(), 98.0);
    assert_eq!(merged[1].amount.parse::<f64>().unwrap(), 2.0);
    assert_eq!(merged[2].exchange, "BinanceT");
    assert_eq!(merged[2].price.parse::<f64>().unwrap(), 96.0);
    assert_eq!(merged[2].amount.parse::<f64>().unwrap(), 3.0);
}

#[test]
fn test_merge_bids_with_empty_book() {
    let (mut worker, mut merged) = create_test_worker();
    let binance_asks = create_price_ladder(&[]);
    let bitstamp_asks = create_price_ladder(&[["100.0", "1.0"], ["98.0", "2.0"], ["96.0", "3.0"]]);

    worker.merge_asks("BitstampT", &bitstamp_asks, "BinanceT", &binance_asks, &mut merged);

    assert_eq!(merged.len(), 3);
    assert_eq!(merged[0].exchange, "BitstampT");
    assert_eq!(merged[0].price.parse::<f64>().unwrap(), 100.0);
    assert_eq!(merged[0].amount.parse::<f64>().unwrap(), 1.0);
    assert_eq!(merged[1].exchange, "BitstampT");
    assert_eq!(merged[1].price.parse::<f64>().unwrap(), 98.0);
    assert_eq!(merged[1].amount.parse::<f64>().unwrap(), 2.0);
    assert_eq!(merged[2].exchange, "BitstampT");
    assert_eq!(merged[2].price.parse::<f64>().unwrap(), 96.0);
    assert_eq!(merged[2].amount.parse::<f64>().unwrap(), 3.0);
}

#[test]
fn test_merge_with_empty_vectors() {
    let (mut worker, _) = create_test_worker();
    let mut merged_bids = Vec::new();
    let mut merged_asks = Vec::new();
    let empty_ladder = create_price_ladder(&[]);
    worker.merge_bids("BinanceT", &empty_ladder, "BitstampT", &empty_ladder, &mut merged_bids);
    worker.merge_asks("BinanceT", &empty_ladder, "BitstampT", &empty_ladder, &mut merged_asks);

    let summary = Summary {
        spread: if merged_asks.is_empty() || merged_bids.is_empty() {
            0.0
        } else {
            merged_asks[0].price.parse::<f64>().unwrap() - merged_bids[0].price.parse::<f64>().unwrap()
        }
        .to_string(),
        bids: merged_bids.clone(),
        asks: merged_asks.clone(),
    };

    assert_eq!(summary.spread.parse::<f64>().unwrap(), 0.0);
    assert!(summary.bids.is_empty());
    assert!(summary.asks.is_empty());
}
