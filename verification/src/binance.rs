//! Binance market data: the subscription request, its reply, and the partial
//! book depth record.
use vstd::prelude::*;
use crate::data_types::{PxQt, PxQtLadder, PxQtBook};
use crate::data_handler::JsonBook;
use crate::book_json::{
    PairV, FieldKind, FieldVal, FieldValue, ladder_view, bids_word, asks_word, record_json,
    record_json_exec, schema_view, fields_view, word_chars,
};

verus! {

/// A (un)subscription request: `method` is `"SUBSCRIBE"` or `"UNSUBSCRIBE"`,
/// `params` the stream names (such as `"btcusdt@depth10@100ms"`).
#[derive(Debug)]
pub struct Subscription {
    pub method: String,
    pub params: Vec<String>,
    pub id: u32,
}

/// The reply to a subscription request.
#[derive(Debug)]
pub struct ResponseMessage {
    pub result: Option<String>,
    pub id: u32,
}

/// A partial book depth record: the best bids and asks.
#[derive(Debug)]
#[allow(non_snake_case)]
pub struct OrderBook {
    pub lastUpdateId: u64,
    pub bids: PxQtLadder,
    pub asks: PxQtLadder,
}

impl PxQtBook for OrderBook {
    open spec fn bid_view(&self) -> Seq<PxQt> {
        self.bids@
    }

    open spec fn ask_view(&self) -> Seq<PxQt> {
        self.asks@
    }

    fn get_bid(&self) -> (r: &PxQtLadder) {
        &self.bids
    }

    fn get_ask(&self) -> (r: &PxQtLadder) {
        &self.asks
    }
}

pub open spec fn last_update_id_word() -> Seq<char> {
    seq!['l', 'a', 's', 't', 'U', 'p', 'd', 'a', 't', 'e', 'I', 'd']
}

/// The fields of the partial book depth record.
pub open spec fn book_schema() -> Seq<(Seq<char>, FieldKind)> {
    seq![
        (last_update_id_word(), FieldKind::Uint),
        (bids_word(), FieldKind::Ladder),
        (asks_word(), FieldKind::Ladder),
    ]
}

fn book_schema_exec() -> (r: Vec<(Vec<char>, FieldKind)>)
    ensures
        schema_view(r@) == book_schema(),
{
    let mut r: Vec<(Vec<char>, FieldKind)> = Vec::new();
    let id = word_chars(['l', 'a', 's', 't', 'U', 'p', 'd', 'a', 't', 'e', 'I', 'd'].as_slice());
    let bw = word_chars(['b', 'i', 'd', 's'].as_slice());
    let aw = word_chars(['a', 's', 'k', 's'].as_slice());
    r.push((id, FieldKind::Uint));
    r.push((bw, FieldKind::Ladder));
    r.push((aw, FieldKind::Ladder));
    assert(schema_view(r@) =~= book_schema());
    r
}

impl JsonBook for OrderBook {
    open spec fn json_ladders(t: Seq<char>) -> Option<(Seq<PairV>, Seq<PairV>)> {
        match record_json(t, book_schema(), 0) {
            Some(v) => match (v[1], v[2]) {
                (FieldVal::Ladder(b), FieldVal::Ladder(a)) => Some((b, a)),
                _ => None,
            },
            None => None,
        }
    }

    fn from_json(t: &Vec<char>) -> (r: Option<Self>)
        ensures
            r matches Some(b) ==> record_json(t@, book_schema(), 0) == Some(
                seq![
                    FieldVal::Uint(b.lastUpdateId as nat),
                    FieldVal::Ladder(ladder_view(b.bids@)),
                    FieldVal::Ladder(ladder_view(b.asks@)),
                ],
            ),
    {
        let schema = book_schema_exec();
        match record_json_exec(t, &schema, 0) {
            Some(mut v) => {
                let ghost fv = fields_view(v@);
                assert(fv.len() == 3);
                assert(fv[0] == v@[0]@);
                assert(fv[1] == v@[1]@);
                assert(fv[2] == v@[2]@);
                let a = v.pop();
                let b = v.pop();
                let id = v.pop();
                match (id, b, a) {
                    (
                        Some(FieldValue::Uint(id)),
                        Some(FieldValue::Ladder(b)),
                        Some(FieldValue::Ladder(a)),
                    ) => {
                        let book = OrderBook { lastUpdateId: id, bids: b, asks: a };
                        assert(fv =~= seq![
                            FieldVal::Uint(book.lastUpdateId as nat),
                            FieldVal::Ladder(ladder_view(book.bids@)),
                            FieldVal::Ladder(ladder_view(book.asks@)),
                        ]);
                        Some(book)
                    },
                    _ => {
                        assert(false);
                        None
                    },
                }
            },
            None => None,
        }
    }
}

} // verus!
