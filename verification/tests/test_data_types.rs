use bookworm::data_types::{is_number_text, make_exchange_price_level, px_text_order_exec, ExchangePriceLevel, PxQt, Summary};

fn sample_summary() -> Summary {
    Summary {
        spread: "0.5".to_string(),
        bids: vec![
            ExchangePriceLevel { exchange: String::from("Binance"), price: "100.0".to_string(), amount: "5.0".to_string() },
            ExchangePriceLevel { exchange: String::from("Coinbase"), price: "101.0".to_string(), amount: "10.0".to_string() },
        ],
        asks: vec![
            ExchangePriceLevel { exchange: String::from("Binance"), price: "102.0".to_string(), amount: "5.0".to_string() },
            ExchangePriceLevel { exchange: String::from("Coinbase"), price: "103.0".to_string(), amount: "10.0".to_string() },
        ],
    }
}

#[test]
fn data_types_test_protobuf_data() {
    let summary = sample_summary();
    println!("Summary: {:?}", summary);
}

#[test]
fn price_level_test_protobuf_data() {
    let summary = sample_summary();
    println!("Summary: {:?}", summary);
}

#[test]
fn make_exchange_price_level_keeps_numbers() {
    let pxqt: PxQt = ["100.0".to_string(), "5.0".to_string()];
    let level = make_exchange_price_level("Binance".to_string(), &pxqt);
    assert_eq!(level.exchange, "Binance");
    assert_eq!(level.price.parse::<f64>().unwrap(), 100.0);
    assert_eq!(level.amount.parse::<f64>().unwrap(), 5.0);
}

#[test]
fn make_exchange_price_level_zero_for_non_numbers() {
    let pxqt: PxQt = ["abc".to_string(), "".to_string()];
    let level = make_exchange_price_level("X".to_string(), &pxqt);
    assert_eq!(level.price, "0");
    assert_eq!(level.amount, "0");
}

#[test]
fn price_texts_order_by_value() {
    assert_eq!(px_text_order_exec("100.0", "99.5"), 1);
    assert_eq!(px_text_order_exec("99.5", "100"), -1);
    assert_eq!(px_text_order_exec("100", "100.000"), 0);
    assert_eq!(px_text_order_exec("1e2", "100"), 0);
    assert_eq!(px_text_order_exec("-0", "0"), 0);
    assert_eq!(px_text_order_exec("-1.5", "-1.25"), -1);
    assert_eq!(px_text_order_exec(".5", "0.49"), 1);
    assert_eq!(px_text_order_exec("inf", "1e308"), 1);
    assert_eq!(px_text_order_exec("-infinity", "-1e308"), -1);
    assert_eq!(px_text_order_exec("NaN", "1"), 0);
    assert_eq!(px_text_order_exec("+7", "7."), 0);
}

fn sign(o: std::cmp::Ordering) -> i8 {
    match o {
        std::cmp::Ordering::Less => -1,
        std::cmp::Ordering::Equal => 0,
        std::cmp::Ordering::Greater => 1,
    }
}

#[test]
fn order_of_f64_texts_is_the_f64_order() {
    let samples = [
        "0", "1", "-1", "0.1", "0.10000000000000000001", "1e-3", "2.5E+2", "250", "-0.0", "123.456",
        "inf", "-inf", "7", "1e400", "2e400", "1e-400", "5e-324", "1.7976931348623157e308", "NaN",
    ];
    for a in samples.iter() {
        for b in samples.iter() {
            let fa: f64 = a.parse().unwrap();
            let fb: f64 = b.parse().unwrap();
            let expected = sign(fa.partial_cmp(&fb).unwrap_or(std::cmp::Ordering::Equal));
            assert_eq!(px_text_order_exec(&fa.to_string(), &fb.to_string()), expected, "{} vs {}", a, b);
        }
    }
}

#[test]
fn is_number_text_follows_f64_grammar() {
    for t in ["1", "+1", "-1.", ".5", "1e5", "1E-5", "inf", "Infinity", "-INF", "nan", "NaN", "0.0e0"].iter() {
        assert!(is_number_text(t), "{}", t);
        assert!(t.parse::<f64>().is_ok());
    }
    for t in ["", ".", "e5", "1e", "1e+", "--1", "1.2.3", " 1", "0x10", "infinit", "1_000"].iter() {
        assert!(!is_number_text(t), "{}", t);
        assert!(t.parse::<f64>().is_err());
    }
}
