//! The decisions of the two market data feeds.
//!
//! A feed reads messages from its exchange's websocket. For each event (a
//! message, or an error of the stream) it decides what its connection does
//! next: answer a ping, hand the best levels to the merger, report a message it
//! could not read, or stop. The connection itself (TLS, websocket, channels)
//! performs the action and hands the next event back.
use vstd::prelude::*;
use vstd::utf8::{encode_utf8, decode_utf8, is_char_boundary, is_ascii_chars};
use vstd::string::StringSliceAdditionalSpecFns;
use crate::data_types::PxQtLadder;
use crate::book_json::{PairV, ladder_view, raw_top_n};
use crate::data_handler::get_top_n_bids_asks_raw;
use crate::bitstamp::{skip_to_orderbook_data, is_data_message, data_prefix, BITSTAMP_ORDERBOOK_DATA_OFFSET};

verus! {

/// A message received on a websocket.
#[derive(Debug)]
pub enum WsMessage {
    Text(String),
    Ping(Vec<u8>),
    Close,
    Other,
}

/// What the websocket stream hands a feed: a message, or a receive error.
#[derive(Debug)]
pub enum FeedEvent {
    Received(WsMessage),
    Failed,
}

/// What a feed asks of its connection.
#[derive(Debug)]
pub enum FeedAction {
    /// Stop reading, unsubscribe and disconnect.
    Stop,
    /// Answer a ping with this payload.
    Pong(Vec<u8>),
    /// Hand these best bids and asks to the merger.
    Publish(PxQtLadder, PxQtLadder),
    /// The message held neither bids nor asks.
    NoLevels,
    /// The message is not the JSON that was expected.
    ParseFailed,
    /// A data message too short to hold order book data.
    SkipFailed,
    /// A text message other than a data message, to be read as an event.
    Control,
    /// Nothing to do.
    Ignore,
}

/// The action for a message whose best levels were read as `res`, where a
/// message without any level is reported as such.
pub open spec fn levels_action(r: FeedAction, res: Option<(Seq<PairV>, Seq<PairV>)>) -> bool {
    match res {
        None => r is ParseFailed,
        Some((b, a)) => if b.len() == 0 && a.len() == 0 {
            r is NoLevels
        } else {
            r matches FeedAction::Publish(rb, ra) && ladder_view(rb@) == b && ladder_view(ra@) == a
        },
    }
}

/// The action for a message whose best levels were read as `res`, published
/// even when there is none.
pub open spec fn publish_action(r: FeedAction, res: Option<(Seq<PairV>, Seq<PairV>)>) -> bool {
    match res {
        None => r is ParseFailed,
        Some((b, a)) => r matches FeedAction::Publish(rb, ra) && ladder_view(rb@) == b && ladder_view(
            ra@,
        ) == a,
    }
}

fn read_levels(text: &str, top_n: usize, report_empty: bool) -> (r: FeedAction)
    ensures
        report_empty ==> levels_action(r, raw_top_n(text@, top_n as nat)),
        !report_empty ==> publish_action(r, raw_top_n(text@, top_n as nat)),
{
    match get_top_n_bids_asks_raw(text, top_n) {
        Ok((bids, asks)) => {
            if report_empty && bids.len() == 0 && asks.len() == 0 {
                FeedAction::NoLevels
            } else {
                FeedAction::Publish(bids, asks)
            }
        },
        Err(_) => FeedAction::ParseFailed,
    }
}

/// The number of pings after which the Binance feed stops.
pub const BINANCE_PING_LIMIT: u32 = 6;

/// The Binance feed: the number of pings it has answered.
#[derive(Debug)]
pub struct BinanceFeed {
    pub pings: u32,
}

impl BinanceFeed {
    pub fn new() -> (r: Self)
        ensures
            r.pings == 0,
    {
        BinanceFeed { pings: 0 }
    }

    /// Decides what to do with `event`. Once more than `BINANCE_PING_LIMIT` pings
    /// were answered the feed stops; a text message is read for its best `top_n`
    /// bids and asks; a ping is answered (and counted); a close or an error of
    /// the stream stops the feed; other messages are ignored.
    pub fn on_event(&mut self, event: FeedEvent, top_n: usize) -> (r: FeedAction)
        ensures
            old(self).pings > BINANCE_PING_LIMIT ==> r is Stop && final(self).pings == old(self).pings,
            old(self).pings <= BINANCE_PING_LIMIT ==> match event {
                FeedEvent::Failed => r is Stop && final(self).pings == old(self).pings,
                FeedEvent::Received(WsMessage::Text(t)) => levels_action(
                    r,
                    raw_top_n(t@, top_n as nat),
                ) && final(self).pings == old(self).pings,
                FeedEvent::Received(WsMessage::Ping(p)) => {
                    &&& r == FeedAction::Pong(p)
                    &&& final(self).pings == old(self).pings + 1
                },
                FeedEvent::Received(WsMessage::Close) => {
                    &&& r is Stop
                    &&& final(self).pings == old(self).pings
                },
                FeedEvent::Received(WsMessage::Other) => {
                    &&& r is Ignore
                    &&& final(self).pings == old(self).pings
                },
            },
    {
        if self.pings > BINANCE_PING_LIMIT {
            return FeedAction::Stop;
        }
        match event {
            FeedEvent::Failed => FeedAction::Stop,
            FeedEvent::Received(WsMessage::Text(t)) => read_levels(t.as_str(), top_n, true),
            FeedEvent::Received(WsMessage::Ping(p)) => {
                self.pings = self.pings + 1;
                FeedAction::Pong(p)
            },
            FeedEvent::Received(WsMessage::Close) => FeedAction::Stop,
            FeedEvent::Received(WsMessage::Other) => FeedAction::Ignore,
        }
    }
}

/// The number of messages after which the Bitstamp feed stops.
pub const BITSTAMP_MESSAGE_LIMIT: u32 = 100;

/// The Bitstamp feed: the number of events it has received.
#[derive(Debug)]
pub struct BitstampFeed {
    pub received: u32,
}

/// The action for a text message of the Bitstamp stream. A data message is cut
/// after its prefix when its length in bytes (a `usize`) exceeds the prefix's.
pub open spec fn bitstamp_text_action(r: FeedAction, t: Seq<char>, top_n: nat) -> bool {
    if data_prefix().is_prefix_of(t) {
        if !((encode_utf8(t).len() as usize) > BITSTAMP_ORDERBOOK_DATA_OFFSET) {
            r is SkipFailed
        } else {
            publish_action(r, raw_top_n(t.skip(data_prefix().len() as int), top_n))
        }
    } else {
        r is Control
    }
}

proof fn lemma_encode_concat(a: Seq<char>, b: Seq<char>)
    ensures
        encode_utf8(a + b) == encode_utf8(a) + encode_utf8(b),
        is_char_boundary(encode_utf8(a + b), encode_utf8(a).len() as int),
    decreases a.len(),
{
    broadcast use vstd::utf8::group_utf8_lib;

    if a.len() == 0 {
        assert(a + b =~= b);
        assert(encode_utf8(a) =~= Seq::<u8>::empty());
        assert(encode_utf8(a) + encode_utf8(b) =~= encode_utf8(b));
    } else {
        let ab = a + b;
        assert(ab[0] == a[0]);
        assert(ab.drop_first() =~= a.drop_first() + b);
        lemma_encode_concat(a.drop_first(), b);
        let s = vstd::utf8::encode_scalar(a[0] as u32);
        assert(encode_utf8(ab) == s + encode_utf8(a.drop_first() + b));
        assert(encode_utf8(a) == s + encode_utf8(a.drop_first()));
        assert(encode_utf8(ab) =~= encode_utf8(a) + encode_utf8(b));
        vstd::utf8::encode_utf8_first_scalar(ab);
        let bytes = encode_utf8(ab);
        let l = vstd::utf8::length_of_first_scalar(bytes);
        assert(l == s.len());
        assert(s.len() >= 1);
        assert(vstd::utf8::pop_first_scalar(bytes) =~= encode_utf8(a.drop_first() + b));
        assert(is_char_boundary(bytes, encode_utf8(a).len() as int));
    }
}

pub(crate) proof fn lemma_data_prefix_bytes(t: Seq<char>)
    requires
        data_prefix().is_prefix_of(t),
    ensures
        encode_utf8(t).subrange(0, 8) == encode_utf8(data_prefix()),
        is_char_boundary(encode_utf8(t), 8),
        decode_utf8(encode_utf8(t).subrange(0, 8)) == data_prefix(),
{
    broadcast use vstd::utf8::group_utf8_lib;

    let p = data_prefix();
    let rest = t.skip(8);
    assert(t =~= p + rest);
    lemma_encode_concat(p, rest);
    assert(is_ascii_chars(p));
    vstd::utf8::is_ascii_chars_encode_utf8(p);
    assert(encode_utf8(p).len() == 8);
    assert(encode_utf8(t).subrange(0, 8) =~= encode_utf8(p));
}

impl BitstampFeed {
    pub fn new() -> (r: Self)
        ensures
            r.received == 0,
    {
        BitstampFeed { received: 0 }
    }

    /// Decides what to do with `event`: every event is counted, and after
    /// `BITSTAMP_MESSAGE_LIMIT` of them the feed stops; an error of the stream
    /// stops it; a data message is read for its best `top_n` bids and asks;
    /// another text message is to be read as an event; other messages are
    /// ignored.
    pub fn on_event(&mut self, event: FeedEvent, top_n: usize) -> (r: FeedAction)
        ensures
            final(self).received == if old(self).received <= BITSTAMP_MESSAGE_LIMIT {
                old(self).received + 1
            } else {
                old(self).received as int
            },
            final(self).received > BITSTAMP_MESSAGE_LIMIT ==> r is Stop,
            final(self).received <= BITSTAMP_MESSAGE_LIMIT ==> match event {
                FeedEvent::Failed => r is Stop,
                FeedEvent::Received(WsMessage::Text(t)) => bitstamp_text_action(r, t@, top_n as nat),
                FeedEvent::Received(_) => r is Ignore,
            },
    {
        if self.received <= BITSTAMP_MESSAGE_LIMIT {
            self.received = self.received + 1;
        }
        if self.received > BITSTAMP_MESSAGE_LIMIT {
            return FeedAction::Stop;
        }
        match event {
            FeedEvent::Failed => FeedAction::Stop,
            FeedEvent::Received(WsMessage::Text(t)) => {
                let ts: &str = t.as_str();
                if is_data_message(ts) {
                    proof {
                        lemma_data_prefix_bytes(t@);
                        assert(ts.spec_bytes() == encode_utf8(t@));
                    }
                    match skip_to_orderbook_data(ts) {
                        Ok(data) => {
                            proof {
                                assert(data_prefix() + data@ == t@);
                                assert(data@ =~= t@.skip(8));
                            }
                            read_levels(data, top_n, false)
                        },
                        Err(_) => FeedAction::SkipFailed,
                    }
                } else {
                    FeedAction::Control
                }
            },
            FeedEvent::Received(_) => FeedAction::Ignore,
        }
    }
}

} // verus!
