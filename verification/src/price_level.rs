//! Price ladders and the books that hold a bid and an ask ladder.
use vstd::prelude::*;
pub use crate::data_types::{PxQt, PxQtLadder, ExchangePriceLevel, Summary};

verus! {

/// An order book from which the bid and ask ladders can be read.
pub trait BidAsk {
    spec fn bid_ladder(&self) -> Seq<PxQt>;

    spec fn ask_ladder(&self) -> Seq<PxQt>;

    fn get_bid(&self) -> (r: &PxQtLadder)
        ensures
            r@ == self.bid_ladder(),
    ;

    fn get_ask(&self) -> (r: &PxQtLadder)
        ensures
            r@ == self.ask_ladder(),
    ;
}

impl BidAsk for crate::binance::OrderBook {
    open spec fn bid_ladder(&self) -> Seq<PxQt> {
        self.bids@
    }

    open spec fn ask_ladder(&self) -> Seq<PxQt> {
        self.asks@
    }

    fn get_bid(&self) -> (r: &PxQtLadder) {
        &self.bids
    }

    fn get_ask(&self) -> (r: &PxQtLadder) {
        &self.asks
    }
}

impl BidAsk for crate::bitstamp::OrderBook {
    open spec fn bid_ladder(&self) -> Seq<PxQt> {
        self.data.bids@
    }

    open spec fn ask_ladder(&self) -> Seq<PxQt> {
        self.data.asks@
    }

    fn get_bid(&self) -> (r: &PxQtLadder) {
        &self.data.bids
    }

    fn get_ask(&self) -> (r: &PxQtLadder) {
        &self.data.asks
    }
}

impl BidAsk for crate::bitstamp::OrderBookData {
    open spec fn bid_ladder(&self) -> Seq<PxQt> {
        self.bids@
    }

    open spec fn ask_ladder(&self) -> Seq<PxQt> {
        self.asks@
    }

    fn get_bid(&self) -> (r: &PxQtLadder) {
        &self.bids
    }

    fn get_ask(&self) -> (r: &PxQtLadder) {
        &self.asks
    }
}

} // verus!
