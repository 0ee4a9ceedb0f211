use bookworm::feed::{BinanceFeed, BitstampFeed, FeedAction, FeedEvent, WsMessage, BINANCE_PING_LIMIT, BITSTAMP_MESSAGE_LIMIT};

fn text(t: &str) -> FeedEvent {
    FeedEvent::Received(WsMessage::Text(t.to_string()))
}

#[test]
fn binance_publishes_levels() {
    let mut feed = BinanceFeed::new();
    match feed.on_event(text(r#"{"lastUpdateId": 1, "bids": [["1", "2"], ["0.5", "1"]], "asks": [["3", "4"]]}"#), 1) {
        FeedAction::Publish(bids, asks) => {
            assert_eq!(bids, vec![["1".to_string(), "2".to_string()]]);
            assert_eq!(asks, vec![["3".to_string(), "4".to_string()]]);
        }
        other => panic!("unexpected {:?}", other),
    }
}

#[test]
fn binance_reports_messages_without_levels_and_bad_json() {
    let mut feed = BinanceFeed::new();
    assert!(matches!(feed.on_event(text(r#"{"result": null, "id": 1}"#), 10), FeedAction::NoLevels));
    assert!(matches!(feed.on_event(text("not json"), 10), FeedAction::ParseFailed));
}

#[test]
fn binance_answers_pings_then_stops() {
    let mut feed = BinanceFeed::new();
    for i in 0..=BINANCE_PING_LIMIT {
        match feed.on_event(FeedEvent::Received(WsMessage::Ping(vec![i as u8])), 10) {
            FeedAction::Pong(p) => assert_eq!(p, vec![i as u8]),
            other => panic!("unexpected {:?}", other),
        }
    }
    assert_eq!(feed.pings, BINANCE_PING_LIMIT + 1);
    assert!(matches!(feed.on_event(text("{}"), 10), FeedAction::Stop));
}

#[test]
fn binance_stops_on_close_and_error() {
    let mut feed = BinanceFeed::new();
    assert!(matches!(feed.on_event(FeedEvent::Received(WsMessage::Other), 10), FeedAction::Ignore));
    assert!(matches!(feed.on_event(FeedEvent::Received(WsMessage::Close), 10), FeedAction::Stop));
    assert!(matches!(feed.on_event(FeedEvent::Failed, 10), FeedAction::Stop));
}

#[test]
fn bitstamp_reads_data_messages() {
    let mut feed = BitstampFeed::new();
    let msg = r#"{"data":{"timestamp":"1","bids":[["10","1"],["9","2"]],"asks":[]},"channel":"order_book_btcusd","event":"data"}"#;
    match feed.on_event(text(msg), 1) {
        FeedAction::Publish(bids, asks) => {
            assert_eq!(bids, vec![["10".to_string(), "1".to_string()]]);
            assert!(asks.is_empty());
        }
        other => panic!("unexpected {:?}", other),
    }
    assert_eq!(feed.received, 1);
}

#[test]
fn bitstamp_other_messages() {
    let mut feed = BitstampFeed::new();
    assert!(matches!(feed.on_event(text(r#"{"event":"bts:subscription_succeeded"}"#), 10), FeedAction::Control));
    assert!(matches!(feed.on_event(text(r#"{"data":"#), 10), FeedAction::SkipFailed));
    assert!(matches!(feed.on_event(text(r#"{"data":[1]}"#), 10), FeedAction::ParseFailed));
    assert!(matches!(feed.on_event(FeedEvent::Received(WsMessage::Ping(vec![])), 10), FeedAction::Ignore));
    assert!(matches!(feed.on_event(FeedEvent::Failed, 10), FeedAction::Stop));
}

#[test]
fn bitstamp_stops_after_the_message_limit() {
    let mut feed = BitstampFeed::new();
    for _ in 0..BITSTAMP_MESSAGE_LIMIT {
        assert!(matches!(feed.on_event(FeedEvent::Received(WsMessage::Other), 10), FeedAction::Ignore));
    }
    assert!(matches!(feed.on_event(FeedEvent::Received(WsMessage::Other), 10), FeedAction::Stop));
    assert!(matches!(feed.on_event(FeedEvent::Received(WsMessage::Other), 10), FeedAction::Stop));
    assert_eq!(feed.received, BITSTAMP_MESSAGE_LIMIT + 1);
}
