//! Reading the best levels of an order book from a JSON text.
//!
//! `get_top_n` reads the whole record of a book type and keeps its first `n`
//! bids and asks. `get_top_n_bids_asks_raw` reads only what it needs from any
//! JSON object: the first `n` elements of its `bids` and `asks` arrays; the other
//! elements are only checked to be JSON, and what follows the object is not read.
use vstd::prelude::*;
use crate::data_types::{PxQt, PxQtLadder, PxQtBook};
use crate::book_json::{PairV, ladder_view, pair_view, raw_top_n, raw_top_n_exec};
use crate::book_json::min_len;
use crate::decimal::str_chars;

verus! {

/// The error of a JSON text that is not what was expected.
#[derive(Debug, Clone, Copy, PartialEq, Eq)]
pub enum ParseError {
    InvalidJson,
}

/// A book record that can be read from JSON.
pub trait JsonBook: PxQtBook + Sized {
    /// The bids and asks of the record that the JSON text `t` holds, or `None`
    /// when `t` does not hold one.
    spec fn json_ladders(t: Seq<char>) -> Option<(Seq<PairV>, Seq<PairV>)>;

    fn from_json(t: &Vec<char>) -> (r: Option<Self>)
        ensures
            r is Some <==> Self::json_ladders(t@) is Some,
            r matches Some(b) ==> Self::json_ladders(t@) == Some(
                (ladder_view(b.bid_view()), ladder_view(b.ask_view())),
            ),
    ;
}

/// The first `n` levels of a ladder, copied.
pub fn take_levels(l: &PxQtLadder, n: usize) -> (r: PxQtLadder)
    ensures
        ladder_view(r@) == ladder_view(l@).take(min_len(n as nat, l@.len()) as int),
{
    let mut out: PxQtLadder = Vec::new();
    let m = if n < l.len() {
        n
    } else {
        l.len()
    };
    let mut k: usize = 0;
    while k < m
        invariant
            k <= m <= l.len(),
            m == min_len(n as nat, l@.len()),
            ladder_view(out@) =~= ladder_view(l@).take(k as int),
        decreases m - k,
    {
        let pq: PxQt = [l[k][0].clone(), l[k][1].clone()];
        assert(pair_view(pq) == pair_view(l@[k as int]));
        let ghost before = out@;
        out.push(pq);
        assert(ladder_view(out@) =~= ladder_view(before).push(pair_view(pq)));
        k += 1;
    }
    out
}

/// Reads the whole record of book type `T` from `json_str` and returns its
/// first `n` bids and asks.
pub fn get_top_n<T: JsonBook>(json_str: &str, n: usize) -> (r: Result<(PxQtLadder, PxQtLadder), ParseError>)
    ensures
        match T::json_ladders(json_str@) {
            None => r == Err::<(PxQtLadder, PxQtLadder), ParseError>(ParseError::InvalidJson),
            Some((b, a)) => r matches Ok((rb, ra)) && ladder_view(rb@) == b.take(
                min_len(n as nat, b.len()) as int,
            ) && ladder_view(ra@) == a.take(min_len(n as nat, a.len()) as int),
        },
{
    let t = str_chars(json_str);
    match T::from_json(&t) {
        None => Err(ParseError::InvalidJson),
        Some(book) => {
            let top_bids = take_levels(book.get_bid(), n);
            let top_asks = take_levels(book.get_ask(), n);
            Ok((top_bids, top_asks))
        },
    }
}

/// Reads the first `n` bids and asks of the JSON object at the start of
/// `raw_json`, without reading the rest of the ladders into levels.
pub fn get_top_n_bids_asks_raw(raw_json: &str, n: usize) -> (r: Result<(PxQtLadder, PxQtLadder), ParseError>)
    ensures
        match raw_top_n(raw_json@, n as nat) {
            None => r == Err::<(PxQtLadder, PxQtLadder), ParseError>(ParseError::InvalidJson),
            Some((b, a)) => r matches Ok((rb, ra)) && ladder_view(rb@) == b && ladder_view(ra@) == a,
        },
{
    let t = str_chars(raw_json);
    match raw_top_n_exec(&t, n) {
        Some((b, a)) => Ok((b, a)),
        None => Err(ParseError::InvalidJson),
    }
}

} // verus!
