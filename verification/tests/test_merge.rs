use bookworm::book_worker::{BookSide, MergeBook, Merger};
use bookworm::data_tunnel::{create_data_tunnel, PxQtLadder};

fn ladder(levels: &[(&str, &str)]) -> PxQtLadder {
    levels.iter().map(|(p, q)| [p.to_string(), q.to_string()]).collect()
}

fn prices(levels: &[bookworm::data_types::ExchangePriceLevel]) -> Vec<(String, String)> {
    levels.iter().map(|l| (l.exchange.clone(), l.price.clone())).collect()
}

#[test]
fn merged_bids_are_sorted_and_limited() {
    let (_, rx_a) = create_data_tunnel();
    let (_, rx_b) = create_data_tunnel();
    let mut worker = Merger::new(4, "A".to_string(), rx_a, "B".to_string(), rx_b);
    let mut merged = Vec::new();
    let a = ladder(&[("10", "1"), ("8", "1"), ("6", "1")]);
    let b = ladder(&[("9", "1"), ("8", "2"), ("1", "1")]);
    worker.merge_bids("A", &a, "B", &b, &mut merged);
    assert_eq!(
        prices(&merged),
        vec![
            ("A".to_string(), "10".to_string()),
            ("B".to_string(), "9".to_string()),
            ("A".to_string(), "8".to_string()),
            ("B".to_string(), "8".to_string()),
        ]
    );
}

#[test]
fn merged_asks_tie_at_the_limit_keeps_first_book() {
    let (_, rx_a) = create_data_tunnel();
    let (_, rx_b) = create_data_tunnel();
    let mut worker = Merger::new(1, "A".to_string(), rx_a, "B".to_string(), rx_b);
    let mut merged = Vec::new();
    worker.merge_asks("A", &ladder(&[("5", "1")]), "B", &ladder(&[("5.0", "2")]), &mut merged);
    assert_eq!(prices(&merged), vec![("A".to_string(), "5".to_string())]);
}

#[test]
fn merge_with_zero_levels_is_empty() {
    let (_, rx_a) = create_data_tunnel();
    let (_, rx_b) = create_data_tunnel();
    let mut worker = Merger::new(0, "A".to_string(), rx_a, "B".to_string(), rx_b);
    let mut merged = Vec::new();
    worker.merge_bids("A", &ladder(&[("5", "1")]), "B", &ladder(&[("6", "1")]), &mut merged);
    assert!(merged.is_empty());
}

#[test]
fn merger_parts_are_kept() {
    let (_, rx_a) = create_data_tunnel();
    let (_, rx_b) = create_data_tunnel();
    let worker = Merger::new(5, "Binance".to_string(), rx_a, "Bitstamp".to_string(), rx_b);
    let (top_n, a, b, _, _) = worker.into_parts();
    assert_eq!((top_n, a.as_str(), b.as_str()), (5, "Binance", "Bitstamp"));
}

#[test]
fn merge_book_keeps_last_ladders_of_each_side() {
    let mut book = MergeBook::new();
    book.update(3, BookSide::A, "A", "B", ladder(&[("10", "1"), ("9", "1")]), ladder(&[("11", "1")]));
    assert_eq!(prices(&book.merged_bids), vec![("A".to_string(), "10".to_string()), ("A".to_string(), "9".to_string())]);
    book.update(3, BookSide::B, "B", "A", ladder(&[("9.5", "1")]), ladder(&[("10.5", "1"), ("11", "2")]));
    assert_eq!(
        prices(&book.merged_bids),
        vec![
            ("A".to_string(), "10".to_string()),
            ("B".to_string(), "9.5".to_string()),
            ("A".to_string(), "9".to_string()),
        ]
    );
    assert_eq!(
        prices(&book.merged_asks),
        vec![
            ("B".to_string(), "10.5".to_string()),
            ("B".to_string(), "11".to_string()),
            ("A".to_string(), "11".to_string()),
        ]
    );
    assert_eq!(book.last_bids_a, ladder(&[("10", "1"), ("9", "1")]));
    assert_eq!(book.last_asks_b, ladder(&[("10.5", "1"), ("11", "2")]));
}

#[test]
fn merge_book_update_checks_prices() {
    let mut book = MergeBook::new();
    book.update(3, BookSide::A, "A", "B", ladder(&[("10", "1")]), ladder(&[]));
    assert!(book.update_is_defined(3, BookSide::B, &ladder(&[("9", "1")]), &ladder(&[])));
    assert!(!book.update_is_defined(3, BookSide::B, &ladder(&[("x", "1")]), &ladder(&[])));
    assert!(book.update_is_defined(3, BookSide::A, &ladder(&[("x", "1")]), &ladder(&[])));
}
