//! Bitstamp market data: heartbeat and subscription messages, and the order
//! book record.
use vstd::prelude::*;
use crate::data_types::{PxQt, PxQtLadder, PxQtBook};
use crate::decimal::str_chars;
use vstd::utf8::{is_char_boundary, decode_utf8};
use vstd::string::StringSliceAdditionalSpecFns;
use crate::data_handler::JsonBook;
use crate::book_json::{
    PairV, FieldKind, FieldVal, FieldValue, ladder_view, record_json, record_json_exec, schema_view,
    fields_view, word_chars, data_schema, data_schema_exec, data_view, chars_equal,
};

verus! {

/// A heartbeat request (`"bts:heartbeat"`).
#[derive(Debug)]
pub struct Heartbeat {
    pub event: String,
}

/// The channel of a subscription.
#[derive(Debug)]
pub struct SubscriptionData {
    pub channel: String,
}

/// A (un)subscription request (`"bts:subscribe"` or `"bts:unsubscribe"`).
#[derive(Debug)]
pub struct Subscription {
    pub event: String,
    pub data: SubscriptionData,
}

/// The order book carried by a data message.
#[derive(Debug)]
pub struct OrderBookData {
    pub timestamp: String,
    pub microtimestamp: String,
    pub bids: PxQtLadder,
    pub asks: PxQtLadder,
}

/// A data message of an order book channel.
#[derive(Debug)]
pub struct OrderBook {
    pub data: OrderBookData,
    pub event: String,
    pub channel: String,
}

impl PxQtBook for OrderBook {
    open spec fn bid_view(&self) -> Seq<PxQt> {
        self.data.bids@
    }

    open spec fn ask_view(&self) -> Seq<PxQt> {
        self.data.asks@
    }

    fn get_bid(&self) -> (r: &PxQtLadder) {
        &self.data.bids
    }

    fn get_ask(&self) -> (r: &PxQtLadder) {
        &self.data.asks
    }
}

impl PxQtBook for OrderBookData {
    open spec fn bid_view(&self) -> Seq<PxQt> {
        self.bids@
    }

    open spec fn ask_view(&self) -> Seq<PxQt> {
        self.asks@
    }

    fn get_bid(&self) -> (r: &PxQtLadder) {
        &self.bids
    }

    fn get_ask(&self) -> (r: &PxQtLadder) {
        &self.asks
    }
}

pub open spec fn data_word() -> Seq<char> {
    seq!['d', 'a', 't', 'a']
}

pub open spec fn event_word() -> Seq<char> {
    seq!['e', 'v', 'e', 'n', 't']
}

pub open spec fn channel_word() -> Seq<char> {
    seq!['c', 'h', 'a', 'n', 'n', 'e', 'l']
}

/// The fields of the order book data message.
pub open spec fn book_schema() -> Seq<(Seq<char>, FieldKind)> {
    seq![
        (data_word(), FieldKind::Data),
        (event_word(), FieldKind::Text),
        (channel_word(), FieldKind::Text),
    ]
}

fn book_schema_exec() -> (r: Vec<(Vec<char>, FieldKind)>)
    ensures
        schema_view(r@) == book_schema(),
{
    let mut r: Vec<(Vec<char>, FieldKind)> = Vec::new();
    let dw = word_chars(['d', 'a', 't', 'a'].as_slice());
    let ew = word_chars(['e', 'v', 'e', 'n', 't'].as_slice());
    let cw = word_chars(['c', 'h', 'a', 'n', 'n', 'e', 'l'].as_slice());
    r.push((dw, FieldKind::Data));
    r.push((ew, FieldKind::Text));
    r.push((cw, FieldKind::Text));
    assert(schema_view(r@) =~= book_schema());
    r
}

impl JsonBook for OrderBook {
    open spec fn json_ladders(t: Seq<char>) -> Option<(Seq<PairV>, Seq<PairV>)> {
        match record_json(t, book_schema(), 1) {
            Some(v) => match v[0] {
                FieldVal::Data(d) => match (d[2], d[3]) {
                    (FieldVal::Ladder(b), FieldVal::Ladder(a)) => Some((b, a)),
                    _ => None,
                },
                _ => None,
            },
            None => None,
        }
    }

    fn from_json(t: &Vec<char>) -> (r: Option<Self>)
        ensures
            r matches Some(b) ==> record_json(t@, book_schema(), 1) == Some(
                seq![
                    FieldVal::Data(data_view(b.data)),
                    FieldVal::Text(b.event@),
                    FieldVal::Text(b.channel@),
                ],
            ),
    {
        let schema = book_schema_exec();
        match record_json_exec(t, &schema, 1) {
            Some(mut v) => {
                let ghost fv = fields_view(v@);
                assert(fv.len() == 3);
                assert(fv[0] == v@[0]@);
                assert(fv[1] == v@[1]@);
                assert(fv[2] == v@[2]@);
                let c = v.pop();
                let e = v.pop();
                let d = v.pop();
                match (d, e, c) {
                    (
                        Some(FieldValue::Data(d)),
                        Some(FieldValue::Text(e)),
                        Some(FieldValue::Text(c)),
                    ) => {
                        let book = OrderBook { data: d, event: e, channel: c };
                        assert(fv =~= seq![
                            FieldVal::Data(data_view(book.data)),
                            FieldVal::Text(book.event@),
                            FieldVal::Text(book.channel@),
                        ]);
                        Some(book)
                    },
                    _ => {
                        assert(false);
                        None
                    },
                }
            },
            None => None,
        }
    }
}

impl JsonBook for OrderBookData {
    open spec fn json_ladders(t: Seq<char>) -> Option<(Seq<PairV>, Seq<PairV>)> {
        match record_json(t, data_schema(), 0) {
            Some(v) => match (v[2], v[3]) {
                (FieldVal::Ladder(b), FieldVal::Ladder(a)) => Some((b, a)),
                _ => None,
            },
            None => None,
        }
    }

    fn from_json(t: &Vec<char>) -> (r: Option<Self>)
        ensures
            r matches Some(b) ==> record_json(t@, data_schema(), 0) == Some(data_view(b)),
    {
        let schema = data_schema_exec();
        match record_json_exec(t, &schema, 0) {
            Some(mut v) => {
                let ghost fv = fields_view(v@);
                assert(fv.len() == 4);
                assert(fv[0] == v@[0]@);
                assert(fv[1] == v@[1]@);
                assert(fv[2] == v@[2]@);
                assert(fv[3] == v@[3]@);
                let a = v.pop();
                let b = v.pop();
                let m = v.pop();
                let ts = v.pop();
                match (ts, m, b, a) {
                    (
                        Some(FieldValue::Text(ts)),
                        Some(FieldValue::Text(m)),
                        Some(FieldValue::Ladder(b)),
                        Some(FieldValue::Ladder(a)),
                    ) => {
                        let book = OrderBookData { timestamp: ts, microtimestamp: m, bids: b, asks: a };
                        assert(fv =~= data_view(book));
                        Some(book)
                    },
                    _ => {
                        assert(false);
                        None
                    },
                }
            },
            None => None,
        }
    }
}

/// Number of bytes of the `{"data":` prefix after which the order book data of a
/// data message starts.
pub const BITSTAMP_ORDERBOOK_DATA_OFFSET: usize = 8;

/// The prefix of a data message.
pub open spec fn data_prefix() -> Seq<char> {
    seq!['{', '"', 'd', 'a', 't', 'a', '"', ':']
}

/// The error of a message too short to hold order book data.
#[derive(Debug, Clone, Copy, PartialEq, Eq)]
pub enum SkipError {
    InvalidJsonLength,
}

/// The text of the error of a message too short to hold order book data.
pub open spec fn invalid_json_length_text() -> Seq<char> {
    seq!['I', 'n', 'v', 'a', 'l', 'i', 'd', ' ', 'J', 'S', 'O', 'N', ' ', 'l', 'e', 'n', 'g', 't', 'h']
}

impl SkipError {
    /// The error's message.
    pub fn to_string(&self) -> (r: String)
        ensures
            r@ == invalid_json_length_text(),
    {
        let r = "Invalid JSON length".to_string();
        proof {
            reveal_strlit("Invalid JSON length");
        }
        assert(r@ =~= invalid_json_length_text());
        r
    }
}

/// The text that follows the first `BITSTAMP_ORDERBOOK_DATA_OFFSET` bytes of a data
/// message: its order book data (and the rest of the message). A message of at
/// most that many bytes is refused. The cut must fall on a character boundary.
pub fn skip_to_orderbook_data(json_str: &str) -> (r: Result<&str, SkipError>)
    requires
        json_str.len() > BITSTAMP_ORDERBOOK_DATA_OFFSET ==> is_char_boundary(
            json_str.spec_bytes(),
            BITSTAMP_ORDERBOOK_DATA_OFFSET as int,
        ),
    ensures
        r is Ok <==> json_str.len() > BITSTAMP_ORDERBOOK_DATA_OFFSET,
        r is Err ==> r == Err::<&str, SkipError>(SkipError::InvalidJsonLength),
        r matches Ok(s) ==> s.spec_bytes() == json_str.spec_bytes().subrange(
            BITSTAMP_ORDERBOOK_DATA_OFFSET as int,
            json_str.spec_bytes().len() as int,
        ),
        r matches Ok(s) ==> json_str@ == decode_utf8(
            json_str.spec_bytes().subrange(0, BITSTAMP_ORDERBOOK_DATA_OFFSET as int),
        ) + s@,
        data_prefix().is_prefix_of(json_str@) ==> (r matches Ok(s) ==> s@ == json_str@.skip(
            data_prefix().len() as int,
        )),
{
    let json_len = json_str.len();
    if json_len > BITSTAMP_ORDERBOOK_DATA_OFFSET {
        let (_, rest) = json_str.split_at(BITSTAMP_ORDERBOOK_DATA_OFFSET);
        proof {
            if data_prefix().is_prefix_of(json_str@) {
                crate::feed::lemma_data_prefix_bytes(json_str@);
            }
            broadcast use vstd::utf8::group_utf8_lib;
            let bytes = json_str.spec_bytes();
            assert(decode_utf8(bytes) == json_str@);
            vstd::utf8::decode_utf8_split(bytes, BITSTAMP_ORDERBOOK_DATA_OFFSET as int);
            assert(decode_utf8(rest.spec_bytes()) == rest@);
        }
        Ok(rest)
    } else {
        Err(SkipError::InvalidJsonLength)
    }
}

/// Whether a message starts with the `{"data":` prefix of a data message.
pub fn is_data_message(text: &str) -> (r: bool)
    ensures
        r == data_prefix().is_prefix_of(text@),
{
    let t = str_chars(text);
    let p = ['{', '"', 'd', 'a', 't', 'a', '"', ':'];
    assert(p@ =~= data_prefix());
    if t.len() < 8 {
        return false;
    }
    let mut k: usize = 0;
    while k < 8
        invariant
            k <= 8 <= t.len(),
            t@ == text@,
            p@ == data_prefix(),
            forall|i: int| 0 <= i < k ==> t@[i] == p@[i],
        decreases 8 - k,
    {
        if t[k] != p[k] {
            return false;
        }
        k += 1;
    }
    assert(data_prefix() =~= text@.take(8));
    true
}


/// A message of the stream other than a data message: an event, with the
/// channel and, as JSON text, the data it carries.
#[derive(Debug)]
pub struct InStreamMessage {
    pub event: Option<String>,
    pub channel: Option<String>,
    pub data: Option<String>,
}

/// What a message of the stream other than a data message reports.
#[derive(Debug, Clone, Copy, PartialEq, Eq)]
pub enum StreamEvent {
    /// `bts:subscription_succeeded`
    SubscriptionSucceeded,
    /// `order_created`, `order_changed` or `order_deleted`
    Order,
    /// `bts:error`
    Error,
    /// Any other event.
    Other,
    /// A message without an event.
    NoEvent,
}

pub open spec fn subscription_succeeded_word() -> Seq<char> {
    seq!['b', 't', 's', ':', 's', 'u', 'b', 's', 'c', 'r', 'i', 'p', 't', 'i', 'o', 'n', '_', 's', 'u', 'c', 'c', 'e', 'e', 'd', 'e', 'd']
}

pub open spec fn order_created_word() -> Seq<char> {
    seq!['o', 'r', 'd', 'e', 'r', '_', 'c', 'r', 'e', 'a', 't', 'e', 'd']
}

pub open spec fn order_changed_word() -> Seq<char> {
    seq!['o', 'r', 'd', 'e', 'r', '_', 'c', 'h', 'a', 'n', 'g', 'e', 'd']
}

pub open spec fn order_deleted_word() -> Seq<char> {
    seq!['o', 'r', 'd', 'e', 'r', '_', 'd', 'e', 'l', 'e', 't', 'e', 'd']
}

pub open spec fn error_event_word() -> Seq<char> {
    seq!['b', 't', 's', ':', 'e', 'r', 'r', 'o', 'r']
}

/// What a message with event `event` reports.
pub open spec fn event_kind(event: Option<Seq<char>>) -> StreamEvent {
    match event {
        None => StreamEvent::NoEvent,
        Some(e) => if e == subscription_succeeded_word() {
            StreamEvent::SubscriptionSucceeded
        } else if e == order_created_word() || e == order_changed_word() || e == order_deleted_word() {
            StreamEvent::Order
        } else if e == error_event_word() {
            StreamEvent::Error
        } else {
            StreamEvent::Other
        },
    }
}

pub open spec fn opt_view(o: Option<String>) -> Option<Seq<char>> {
    match o {
        Some(s) => Some(s@),
        None => None,
    }
}

fn is_word(t: &Vec<char>, w: &[char]) -> (r: bool)
    ensures
        r == (t@ == w@),
{
    assert(t@.subrange(0, t@.len() as int) =~= t@);
    chars_equal(t, 0, t.len(), w)
}

/// Tells what a message of the stream other than a data message reports.
pub fn classify_message(msg: &InStreamMessage) -> (r: StreamEvent)
    ensures
        r == event_kind(opt_view(msg.event)),
{
    match &msg.event {
        None => StreamEvent::NoEvent,
        Some(e) => {
            let t = str_chars(e.as_str());
            let subscribed = ['b', 't', 's', ':', 's', 'u', 'b', 's', 'c', 'r', 'i', 'p', 't', 'i', 'o', 'n', '_', 's', 'u', 'c', 'c', 'e', 'e', 'd', 'e', 'd'];
            let created = ['o', 'r', 'd', 'e', 'r', '_', 'c', 'r', 'e', 'a', 't', 'e', 'd'];
            let changed = ['o', 'r', 'd', 'e', 'r', '_', 'c', 'h', 'a', 'n', 'g', 'e', 'd'];
            let deleted = ['o', 'r', 'd', 'e', 'r', '_', 'd', 'e', 'l', 'e', 't', 'e', 'd'];
            let error = ['b', 't', 's', ':', 'e', 'r', 'r', 'o', 'r'];
            assert(subscribed@ =~= subscription_succeeded_word());
            assert(created@ =~= order_created_word());
            assert(changed@ =~= order_changed_word());
            assert(deleted@ =~= order_deleted_word());
            assert(error@ =~= error_event_word());
            if is_word(&t, subscribed.as_slice()) {
                StreamEvent::SubscriptionSucceeded
            } else if is_word(&t, created.as_slice()) || is_word(&t, changed.as_slice()) || is_word(
                &t,
                deleted.as_slice(),
            ) {
                StreamEvent::Order
            } else if is_word(&t, error.as_slice()) {
                StreamEvent::Error
            } else {
                StreamEvent::Other
            }
        },
    }
}

} // verus!
