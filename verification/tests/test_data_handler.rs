use bookworm::json::checked_number_end;
use bookworm::bitstamp::skip_to_orderbook_data;
use bookworm::data_handler::{get_top_n, get_top_n_bids_asks_raw, ParseError};

const N_LEVEL_IN_JSON_STR: usize = 3;

const JSON_STR: &str = r#"{
    "lastUpdateId": 160,
    "timestamp": "1700000000",
    "microtimestamp": "1700000000000000",
    "bids": [["100.00", "1"], ["99.00", "2"], ["98.00", "3"]],
    "asks": [["101.00", "1"], ["102.00", "2"], ["103.00", "3"]]
}"#;

const BINANCE_JSON_BYTE: &str = r#"{"lastUpdateId": 1027024, "bids": [["100.00", "1"], ["99.00", "2"], ["98.00", "3"], ["97.00", "4"], ["96.00", "5"], ["95.00", "6"], ["94.00", "7"], ["93.00", "8"], ["92.00", "9"], ["91.00", "10"], ["90.00", "11"], ["89.00", "12"]], "asks": [["101.00", "1"], ["102.00", "2"], ["103.00", "3"], ["104.00", "4"], ["105.00", "5"], ["106.00", "6"], ["107.00", "7"], ["108.00", "8"], ["109.00", "9"], ["110.00", "10"], ["111.00", "11"], ["112.00", "12"]]}"#;

const BITSTAMP_JSON_BYTE: &str = r#"{"data":{"timestamp": "1700000000", "microtimestamp": "1700000000123456", "bids": [["100.00", "1"], ["99.50", "2"], ["99.00", "3"], ["98.50", "4"], ["98.00", "5"], ["97.50", "6"], ["97.00", "7"], ["96.50", "8"], ["96.00", "9"], ["95.50", "10"], ["95.00", "11"], ["94.50", "12"], ["94.00", "13"], ["93.50", "14"], ["93.00", "15"]], "asks": [["101.00", "1"], ["101.50", "2"], ["102.00", "3"], ["102.50", "4"], ["103.00", "5"], ["103.50", "6"], ["104.00", "7"], ["104.50", "8"], ["105.00", "9"], ["105.50", "10"], ["106.00", "11"], ["106.50", "12"], ["107.00", "13"], ["107.50", "14"], ["108.00", "15"]]},"channel":"order_book_btcusd","event":"data"}"#;

#[test]
fn test_binance_get_top_n_not_enough_levels() {
    let n_requested: usize = N_LEVEL_IN_JSON_STR + 1;

    let (top_bids, top_asks) = get_top_n::<bookworm::binance::OrderBook>(JSON_STR, n_requested)
        .expect("Failed to get top n bids and asks");

    assert_eq!(top_bids.len(), N_LEVEL_IN_JSON_STR);
    assert_eq!(top_asks.len(), N_LEVEL_IN_JSON_STR);
    assert_eq!(top_bids[0][0], "100.00");
    assert_eq!(top_bids[0][1], "1");
    assert_eq!(top_asks[0][0], "101.00");
    assert_eq!(top_asks[0][1], "1");
}

#[test]
fn test_bitstamp_get_top_n_not_enough_levels() {
    let n_requested: usize = N_LEVEL_IN_JSON_STR + 1;

    let (top_bids, top_asks) = get_top_n::<bookworm::bitstamp::OrderBookData>(JSON_STR, n_requested)
        .expect("Failed to get top n bids and asks");

    assert_eq!(top_bids.len(), N_LEVEL_IN_JSON_STR);
    assert_eq!(top_asks.len(), N_LEVEL_IN_JSON_STR);
    assert_eq!(top_bids[0][0], "100.00");
    assert_eq!(top_bids[0][1], "1");
    assert_eq!(top_asks[0][0], "101.00");
    assert_eq!(top_asks[0][1], "1");
}

#[test]
fn test_get_top_n_bids_asks_raw_not_enough_levels() {
    let n_requested: usize = N_LEVEL_IN_JSON_STR + 1;

    let (top_bids, top_asks) =
        get_top_n_bids_asks_raw(JSON_STR, n_requested).expect("Failed to get top n bids and asks");

    assert_eq!(top_bids.len(), N_LEVEL_IN_JSON_STR);
    assert_eq!(top_asks.len(), N_LEVEL_IN_JSON_STR);
    assert_eq!(top_bids[0][0], "100.00");
    assert_eq!(top_bids[0][1], "1");
    assert_eq!(top_asks[0][0], "101.00");
    assert_eq!(top_asks[0][1], "1");
}

#[test]
fn test_binance_get_top_n() {
    let n: usize = 10;
    let (top_bids, top_asks) = get_top_n::<bookworm::binance::OrderBook>(BINANCE_JSON_BYTE, n)
        .expect("Failed to get top n bids and asks");
    println!("top_bids: {:?}", &top_bids);
    println!("top_asks: {:?}", &top_asks);
    assert_eq!(top_bids.len(), n);
    assert_eq!(top_asks.len(), n);
}

#[test]
fn test_bitstamp_get_top_n() {
    let n: usize = 10;
    let (top_bids, top_asks) = get_top_n::<bookworm::bitstamp::OrderBook>(BITSTAMP_JSON_BYTE, n)
        .expect("Failed to get top n bids and asks");
    println!("top_bids: {:?}", &top_bids);
    println!("top_asks: {:?}", &top_asks);
    assert_eq!(top_bids.len(), n);
    assert_eq!(top_asks.len(), n);
}

#[test]
fn test_binance_get_top_n_bids_asks_raw() {
    let n = 5;
    let (top_bids, top_asks) =
        get_top_n_bids_asks_raw(BINANCE_JSON_BYTE, n).expect("Failed to get top n bids and asks");

    println!("top_bids: {:?}", &top_bids);
    println!("top_asks: {:?}", &top_asks);
    assert_eq!(top_bids.len(), n);
    assert_eq!(top_asks.len(), n);
}

#[test]
fn test_bitstamp_get_top_n_bids_asks_raw() {
    let n = 5;
    let (top_bids, top_asks) =
        get_top_n_bids_asks_raw(skip_to_orderbook_data(BITSTAMP_JSON_BYTE).unwrap(), n)
            .expect("Failed to get top n bids and asks");

    println!("top_bids: {:?}", &top_bids);
    println!("top_asks: {:?}", &top_asks);
    assert_eq!(top_bids.len(), n);
    assert_eq!(top_asks.len(), n);
}

#[test]
fn get_top_n_keeps_order_and_values() {
    let (bids, asks) = get_top_n::<bookworm::binance::OrderBook>(BINANCE_JSON_BYTE, 2).unwrap();
    assert_eq!(bids, vec![["100.00".to_string(), "1".to_string()], ["99.00".to_string(), "2".to_string()]]);
    assert_eq!(asks, vec![["101.00".to_string(), "1".to_string()], ["102.00".to_string(), "2".to_string()]]);
}

#[test]
fn get_top_n_zero_levels() {
    let (bids, asks) = get_top_n::<bookworm::binance::OrderBook>(JSON_STR, 0).unwrap();
    assert!(bids.is_empty());
    assert!(asks.is_empty());
}

#[test]
fn get_top_n_missing_field_is_invalid() {
    let r = get_top_n::<bookworm::binance::OrderBook>(r#"{"bids": [], "asks": []}"#, 3);
    assert_eq!(r, Err(ParseError::InvalidJson));
    let r = get_top_n::<bookworm::bitstamp::OrderBookData>(r#"{"timestamp": "1", "bids": [], "asks": []}"#, 3);
    assert_eq!(r, Err(ParseError::InvalidJson));
}

#[test]
fn get_top_n_duplicate_field_is_invalid() {
    let r = get_top_n::<bookworm::binance::OrderBook>(
        r#"{"lastUpdateId": 1, "bids": [], "bids": [], "asks": []}"#,
        3,
    );
    assert_eq!(r, Err(ParseError::InvalidJson));
}

#[test]
fn get_top_n_trailing_text_is_invalid() {
    let r = get_top_n::<bookworm::binance::OrderBook>(r#"{"lastUpdateId": 1, "bids": [], "asks": []} x"#, 3);
    assert_eq!(r, Err(ParseError::InvalidJson));
    let r = get_top_n::<bookworm::binance::OrderBook>("{\"lastUpdateId\": 1, \"bids\": [], \"asks\": []} \n", 3);
    assert!(r.is_ok());
}

#[test]
fn get_top_n_level_must_be_a_pair_of_strings() {
    let r = get_top_n::<bookworm::binance::OrderBook>(r#"{"lastUpdateId": 1, "bids": [["1", 2]], "asks": []}"#, 3);
    assert_eq!(r, Err(ParseError::InvalidJson));
    let r = get_top_n::<bookworm::binance::OrderBook>(r#"{"lastUpdateId": 1, "bids": [["1"]], "asks": []}"#, 3);
    assert_eq!(r, Err(ParseError::InvalidJson));
    let r = get_top_n::<bookworm::binance::OrderBook>(r#"{"lastUpdateId": 1, "bids": [["1", "2", "3"]], "asks": []}"#, 3);
    assert_eq!(r, Err(ParseError::InvalidJson));
}

#[test]
fn get_top_n_reads_escapes() {
    let (bids, _) = get_top_n::<bookworm::binance::OrderBook>(
        r#"{"lastUpdateId": 1, "bids": [["1\u0030", "\"q\""]], "asks": []}"#,
        3,
    )
    .unwrap();
    assert_eq!(bids[0][0], "10");
    assert_eq!(bids[0][1], "\"q\"");
}

#[test]
fn get_top_n_last_update_id_must_be_unsigned() {
    let r = get_top_n::<bookworm::binance::OrderBook>(r#"{"lastUpdateId": -1, "bids": [], "asks": []}"#, 3);
    assert_eq!(r, Err(ParseError::InvalidJson));
    let r = get_top_n::<bookworm::binance::OrderBook>(r#"{"lastUpdateId": 18446744073709551616, "bids": [], "asks": []}"#, 3);
    assert_eq!(r, Err(ParseError::InvalidJson));
    let r = get_top_n::<bookworm::binance::OrderBook>(r#"{"lastUpdateId": 18446744073709551615, "bids": [], "asks": []}"#, 3);
    assert!(r.is_ok());
}

#[test]
fn get_top_n_accepts_array_form() {
    let (bids, asks) =
        get_top_n::<bookworm::binance::OrderBook>(r#"[7, [["1", "2"]], [["3", "4"]]]"#, 3).unwrap();
    assert_eq!(bids, vec![["1".to_string(), "2".to_string()]]);
    assert_eq!(asks, vec![["3".to_string(), "4".to_string()]]);
}

#[test]
fn raw_without_ladders_gives_empty_ladders() {
    let (bids, asks) = get_top_n_bids_asks_raw(r#"{"result": null, "id": 1}"#, 10).unwrap();
    assert!(bids.is_empty());
    assert!(asks.is_empty());
}

#[test]
fn raw_ignores_what_follows_the_object() {
    let (bids, _) = get_top_n_bids_asks_raw(r#"{"bids": [["5", "6"]]} trailing"#, 10).unwrap();
    assert_eq!(bids, vec![["5".to_string(), "6".to_string()]]);
}

#[test]
fn raw_checks_only_the_first_levels() {
    let (bids, _) = get_top_n_bids_asks_raw(r#"{"bids": [["5", "6"], [1, 2, {"x": true}]]}"#, 1).unwrap();
    assert_eq!(bids, vec![["5".to_string(), "6".to_string()]]);
    let r = get_top_n_bids_asks_raw(r#"{"bids": [["5", "6"], [1, 2, {"x": true}]]}"#, 2);
    assert_eq!(r, Err(ParseError::InvalidJson));
}

#[test]
fn raw_refuses_what_is_not_an_object() {
    assert_eq!(get_top_n_bids_asks_raw("[1, 2]", 3), Err(ParseError::InvalidJson));
    assert_eq!(get_top_n_bids_asks_raw("", 3), Err(ParseError::InvalidJson));
    assert_eq!(get_top_n_bids_asks_raw(r#"{"bids": [["1", "2"]"#, 3), Err(ParseError::InvalidJson));
}

#[test]
fn raw_checks_other_members() {
    assert_eq!(get_top_n_bids_asks_raw(r#"{"id": tru}"#, 3), Err(ParseError::InvalidJson));
    assert_eq!(get_top_n_bids_asks_raw(r#"{"id": 1e400}"#, 3), Err(ParseError::InvalidJson));
    assert!(get_top_n_bids_asks_raw(r#"{"id": 1e300, "x": [null, false, "s\n"]}"#, 3).is_ok());
}

#[test]
fn raw_refuses_escaped_member_names() {
    assert_eq!(get_top_n_bids_asks_raw(r#"{"bi\u0064s": []}"#, 3), Err(ParseError::InvalidJson));
}

#[test]
fn raw_later_ladder_replaces_earlier() {
    let (bids, _) = get_top_n_bids_asks_raw(r#"{"bids": [["1", "1"]], "bids": [["2", "2"]]}"#, 3).unwrap();
    assert_eq!(bids, vec![["2".to_string(), "2".to_string()]]);
}

#[test]
fn partial_reading_agrees_with_full_reading() {
    for n in 0..15 {
        let full = get_top_n::<bookworm::binance::OrderBook>(BINANCE_JSON_BYTE, n).unwrap();
        let raw = get_top_n_bids_asks_raw(BINANCE_JSON_BYTE, n).unwrap();
        assert_eq!(full, raw);
        let full = get_top_n::<bookworm::bitstamp::OrderBookData>(JSON_STR, n).unwrap();
        let raw = get_top_n_bids_asks_raw(JSON_STR, n).unwrap();
        assert_eq!(full, raw);
        let data = skip_to_orderbook_data(BITSTAMP_JSON_BYTE).unwrap();
        let full = get_top_n::<bookworm::bitstamp::OrderBook>(BITSTAMP_JSON_BYTE, n).unwrap();
        let raw = get_top_n_bids_asks_raw(data, n).unwrap();
        assert_eq!(full, raw);
    }
}

#[test]
fn checked_number_end_takes_the_outcome() {
    let t: Vec<char> = "12,".chars().collect();
    assert_eq!(checked_number_end(&t, 0, true, true), Some(2));
    assert_eq!(checked_number_end(&t, 0, true, false), None);
    assert_eq!(checked_number_end(&t, 0, false, false), Some(2));
    let bad: Vec<char> = "01".chars().collect();
    assert_eq!(checked_number_end(&bad, 0, false, true), None);
}

#[test]
fn raw_reads_a_numeric_update_id() {
    let (bids, _) = get_top_n_bids_asks_raw(r#"{"lastUpdateId": 18446744073709551615, "bids": [["1", "2"]], "asks": []}"#, 5).unwrap();
    assert_eq!(bids.len(), 1);
}

#[test]
fn raw_later_elements_do_not_change_the_levels() {
    let want: (Vec<[String; 2]>, Vec<[String; 2]>) = (vec![["1".to_string(), "2".to_string()]], vec![]);
    let a = get_top_n_bids_asks_raw(r#"{"bids":[["1","2"],7,{"x":null}],"asks":[]}"#, 1).unwrap();
    let b = get_top_n_bids_asks_raw(r#"{"bids":[["1","2"],["9","9"],"y",[true,false]],"asks":[]}"#, 1).unwrap();
    let c = get_top_n_bids_asks_raw(r#"{"bids":[["1","2"]],"asks":[]}"#, 1).unwrap();
    assert_eq!(a, want);
    assert_eq!(b, want);
    assert_eq!(c, want);
    assert_eq!(
        get_top_n_bids_asks_raw(r#"{"bids":[["1","2"],x],"asks":[]}"#, 1),
        Err(ParseError::InvalidJson)
    );
}
