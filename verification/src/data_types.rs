//! Price levels, ladders and summaries of the aggregated book.
//!
//! A price ladder is a sequence of `[price, quantity]` text pairs as the
//! exchanges publish them. A level of the aggregated book keeps the exchange it
//! came from, and its price and amount as texts whose value is the number the
//! exchange sent (a text that is not a number stands as `"0"`).
use vstd::prelude::*;
use crate::decimal::{is_px_text, px_text_order, str_chars, parse_px, px_order_exec};

verus! {

/// A `[price, quantity]` pair.
pub type PxQt = [String; 2];

/// A side of an order book, best level first.
pub type PxQtLadder = Vec<PxQt>;

/// Abstract view of a level: exchange, price text, amount text.
pub struct LevelView {
    pub exchange: Seq<char>,
    pub price: Seq<char>,
    pub amount: Seq<char>,
}

/// One level of the aggregated book.
#[derive(Debug, Clone)]
pub struct ExchangePriceLevel {
    pub exchange: String,
    pub price: String,
    pub amount: String,
}

impl View for ExchangePriceLevel {
    type V = LevelView;

    open spec fn view(&self) -> LevelView {
        LevelView { exchange: self.exchange@, price: self.price@, amount: self.amount@ }
    }
}

/// The aggregated book: spread, best bids and best asks.
#[derive(Debug, Clone)]
pub struct Summary {
    pub spread: String,
    pub bids: Vec<ExchangePriceLevel>,
    pub asks: Vec<ExchangePriceLevel>,
}

pub open spec fn levels_view(v: Seq<ExchangePriceLevel>) -> Seq<LevelView> {
    v.map_values(|l: ExchangePriceLevel| l@)
}

/// The text that stands for the value of `t`: `t` itself when it is a number,
/// else `"0"`.
pub open spec fn px_or_zero(t: Seq<char>) -> Seq<char> {
    if is_px_text(t) {
        t
    } else {
        seq!['0']
    }
}

/// The level that a `[price, quantity]` pair of `exchange` becomes.
pub open spec fn level_of(exchange: Seq<char>, pxqt: PxQt) -> LevelView {
    LevelView {
        exchange: exchange,
        price: px_or_zero(pxqt[0]@),
        amount: px_or_zero(pxqt[1]@),
    }
}

/// Whether a text is a number in the standard library's floating-point grammar.
pub fn is_number_text(t: &str) -> (r: bool)
    ensures
        r == is_px_text(t@),
{
    let cs = str_chars(t);
    parse_px(&cs).is_some()
}

fn number_or_zero(t: &String) -> (r: String)
    ensures
        r@ == px_or_zero(t@),
{
    if is_number_text(t.as_str()) {
        t.clone()
    } else {
        let z = "0".to_owned();
        proof {
            reveal_strlit("0");
        }
        assert(z@ =~= seq!['0']);
        z
    }
}

/// Makes the level of `exchange` for a `[price, quantity]` pair.
pub fn make_exchange_price_level(exchange: String, pxqt: &PxQt) -> (r: ExchangePriceLevel)
    ensures
        r@ == level_of(exchange@, *pxqt),
{
    let price = number_or_zero(&pxqt[0]);
    let amount = number_or_zero(&pxqt[1]);
    ExchangePriceLevel { exchange, price, amount }
}

/// Order of two price texts by the exact decimal values they write: -1, 0 or 1
/// (0 when either is not-a-number). On the shortest texts of two `f64` values,
/// as `f64`'s `Display` writes them, this is the order of the two values.
pub fn px_text_order_exec(a: &str, b: &str) -> (r: i8)
    requires
        is_px_text(a@),
        is_px_text(b@),
    ensures
        r == px_text_order(a@, b@),
{
    let ca = str_chars(a);
    let cb = str_chars(b);
    let va = parse_px(&ca);
    let vb = parse_px(&cb);
    match (va, vb) {
        (Some(x), Some(y)) => px_order_exec(&x, &y),
        _ => 0,
    }
}

/// An order book from which the bid and ask ladders can be read.
pub trait PxQtBook {
    spec fn bid_view(&self) -> Seq<PxQt>;

    spec fn ask_view(&self) -> Seq<PxQt>;

    fn get_bid(&self) -> (r: &PxQtLadder)
        ensures
            r@ == self.bid_view(),
    ;

    fn get_ask(&self) -> (r: &PxQtLadder)
        ensures
            r@ == self.ask_view(),
    ;
}

} // verus!
