use bookworm::bitstamp::{classify_message, is_data_message, skip_to_orderbook_data, InStreamMessage, SkipError, StreamEvent, BITSTAMP_ORDERBOOK_DATA_OFFSET};

fn message(event: Option<&str>) -> InStreamMessage {
    InStreamMessage { event: event.map(|e| e.to_string()), channel: None, data: None }
}

#[test]
fn skip_cuts_the_data_prefix() {
    let text = r#"{"data":{"bids":[]}}"#;
    assert_eq!(skip_to_orderbook_data(text), Ok(r#"{"bids":[]}}"#));
    assert_eq!(BITSTAMP_ORDERBOOK_DATA_OFFSET, 8);
}

#[test]
fn skip_refuses_short_messages() {
    assert_eq!(skip_to_orderbook_data(r#"{"data":"#), Err(SkipError::InvalidJsonLength));
    assert_eq!(skip_to_orderbook_data(""), Err(SkipError::InvalidJsonLength));
    assert_eq!(skip_to_orderbook_data("123456789"), Ok("9"));
}

#[test]
fn data_messages_are_recognised() {
    assert!(is_data_message(r#"{"data":{}}"#));
    assert!(!is_data_message(r#"{"event":"bts:subscription_succeeded"}"#));
    assert!(!is_data_message(r#"{"data""#));
}

#[test]
fn events_are_classified() {
    assert_eq!(classify_message(&message(Some("bts:subscription_succeeded"))), StreamEvent::SubscriptionSucceeded);
    assert_eq!(classify_message(&message(Some("order_created"))), StreamEvent::Order);
    assert_eq!(classify_message(&message(Some("order_changed"))), StreamEvent::Order);
    assert_eq!(classify_message(&message(Some("order_deleted"))), StreamEvent::Order);
    assert_eq!(classify_message(&message(Some("bts:error"))), StreamEvent::Error);
    assert_eq!(classify_message(&message(Some("bts:heartbeat"))), StreamEvent::Other);
    assert_eq!(classify_message(&message(None)), StreamEvent::NoEvent);
}

#[test]
fn skip_error_message() {
    let e = skip_to_orderbook_data(r#"{"data":"#).unwrap_err();
    assert_eq!(e.to_string(), "Invalid JSON length");
    assert_eq!(skip_to_orderbook_data("").unwrap_err().to_string(), "Invalid JSON length");
}
