//! The JSON forms of order books: `[price, quantity]` pairs, ladders of them, the
//! partial reading of the first levels of `bids` and `asks`, and the complete
//! reading of a book record.
//!
//! A record is read as `serde`'s derived deserializer reads a struct from
//! `serde_json`: either an object whose keys name the fields (each at most once,
//! all of them present, other keys ignored) or an array of the field values in
//! order.
use vstd::prelude::*;
use crate::data_types::{PxQt, PxQtLadder};
use crate::bitstamp::OrderBookData;
use crate::decimal::str_chars;
use crate::decimal::{digit_run, digits_value, is_digit, digit_run_exec, is_digit_exec, lemma_digit_run_bound, digit_val};
use crate::json::{
    skip_ws, parse_str, plain_str_end, value_end, skip_ws_exec, parse_str_exec, plain_str_end_exec,
    value_end_exec,
};

verus! {

/// A `[price, quantity]` pair as text.
pub type PairV = (Seq<char>, Seq<char>);

pub open spec fn pair_view(pq: PxQt) -> PairV {
    (pq[0]@, pq[1]@)
}

pub open spec fn min_len(a: nat, b: nat) -> nat {
    if a < b {
        a
    } else {
        b
    }
}

pub open spec fn ladder_view(l: Seq<PxQt>) -> Seq<PairV> {
    l.map_values(|pq: PxQt| pair_view(pq))
}

/// The next step in a JSON array whose elements are read from `i` on (`first`:
/// no element read yet): an error, its end (position after `]`), or an element
/// starting at a position.
pub enum SeqStep {
    Error,
    End { after: int },
    Elem { at: int },
}

pub open spec fn seq_step(t: Seq<char>, i: int, first: bool) -> SeqStep {
    let q = skip_ws(t, i);
    if i < 0 || q < i || q >= t.len() {
        SeqStep::Error
    } else if t[q] == ']' {
        SeqStep::End { after: q + 1 }
    } else if first {
        SeqStep::Elem { at: q }
    } else if t[q] == ',' {
        let q2 = skip_ws(t, q + 1);
        if q2 >= t.len() || t[q2] == ']' {
            SeqStep::Error
        } else {
            SeqStep::Elem { at: q2 }
        }
    } else {
        SeqStep::Error
    }
}

/// The next step in a JSON object whose members are read from `i` on: an error,
/// its end (position after `}`), or a key whose opening quote is at a position.
pub open spec fn map_step(t: Seq<char>, i: int, first: bool) -> SeqStep {
    let q = skip_ws(t, i);
    if i < 0 || q < i || q >= t.len() {
        SeqStep::Error
    } else if t[q] == '}' {
        SeqStep::End { after: q + 1 }
    } else if first {
        if t[q] == '"' {
            SeqStep::Elem { at: q }
        } else {
            SeqStep::Error
        }
    } else if t[q] == ',' {
        let q2 = skip_ws(t, q + 1);
        if q2 < t.len() && t[q2] == '"' {
            SeqStep::Elem { at: q2 }
        } else {
            SeqStep::Error
        }
    } else {
        SeqStep::Error
    }
}

/// A `[price, quantity]` pair read from `i` on: its two decoded strings and the
/// position after it.
pub open spec fn pair_at(t: Seq<char>, i: int) -> Option<(PairV, int)> {
    let p = skip_ws(t, i);
    if i < 0 || p < i || p >= t.len() || t[p] != '[' {
        None
    } else {
        let q = skip_ws(t, p + 1);
        if q >= t.len() || t[q] != '"' {
            None
        } else {
            match parse_str(t, q + 1) {
                None => None,
                Some((a, e1)) => {
                    let r = skip_ws(t, e1);
                    if r >= t.len() || t[r] != ',' {
                        None
                    } else {
                        let r2 = skip_ws(t, r + 1);
                        if r2 >= t.len() || t[r2] != '"' {
                            None
                        } else {
                            match parse_str(t, r2 + 1) {
                                None => None,
                                Some((b, e2)) => {
                                    let w = skip_ws(t, e2);
                                    if w < t.len() && t[w] == ']' {
                                        Some(((a, b), w + 1))
                                    } else {
                                        None
                                    }
                                },
                            }
                        }
                    }
                },
            }
        }
    }
}

/// The elements of an array from `i` on: the first `n` read as pairs, the rest
/// only checked loosely.
pub open spec fn top_n_elems(t: Seq<char>, i: int, first: bool, n: nat, acc: Seq<PairV>) -> Option<
    (Seq<PairV>, int),
>
    decreases t.len() - i,
{
    match seq_step(t, i, first) {
        SeqStep::Error => None,
        SeqStep::End { after } => Some((acc, after)),
        SeqStep::Elem { at } => {
            if acc.len() < n {
                match pair_at(t, at) {
                    Some((pv, e)) => if i < e <= t.len() {
                        top_n_elems(t, e, false, n, acc.push(pv))
                    } else {
                        None
                    },
                    None => None,
                }
            } else {
                match value_end(t, at, false) {
                    Some(e) => if i < e <= t.len() {
                        top_n_elems(t, e, false, n, acc)
                    } else {
                        None
                    },
                    None => None,
                }
            }
        },
    }
}

/// An array read from `i` on of which only the first `n` elements are read as
/// pairs.
pub open spec fn top_n_array(t: Seq<char>, i: int, n: nat) -> Option<(Seq<PairV>, int)> {
    let p = skip_ws(t, i);
    if i < 0 || p < i || p >= t.len() || t[p] != '[' {
        None
    } else {
        top_n_elems(t, p + 1, true, n, Seq::empty())
    }
}

pub open spec fn bids_word() -> Seq<char> {
    seq!['b', 'i', 'd', 's']
}

pub open spec fn asks_word() -> Seq<char> {
    seq!['a', 's', 'k', 's']
}

/// The members of the book object from `i` on, with the ladders read so far.
pub open spec fn raw_members(
    t: Seq<char>,
    i: int,
    first: bool,
    n: nat,
    bids: Seq<PairV>,
    asks: Seq<PairV>,
) -> Option<(Seq<PairV>, Seq<PairV>)>
    decreases t.len() - i,
{
    match map_step(t, i, first) {
        SeqStep::Error => None,
        SeqStep::End { after } => Some((bids, asks)),
        SeqStep::Elem { at } => match plain_str_end(t, at + 1) {
            None => None,
            Some(ke) => {
                let key = t.subrange(at + 1, ke - 1);
                let c = skip_ws(t, ke);
                if c < ke || c >= t.len() || t[c] != ':' {
                    None
                } else if key == bids_word() {
                    match top_n_array(t, c + 1, n) {
                        Some((l, e)) => if i < e <= t.len() {
                            raw_members(t, e, false, n, l, asks)
                        } else {
                            None
                        },
                        None => None,
                    }
                } else if key == asks_word() {
                    match top_n_array(t, c + 1, n) {
                        Some((l, e)) => if i < e <= t.len() {
                            raw_members(t, e, false, n, bids, l)
                        } else {
                            None
                        },
                        None => None,
                    }
                } else {
                    match value_end(t, c + 1, true) {
                        Some(e) => if i < e <= t.len() {
                            raw_members(t, e, false, n, bids, asks)
                        } else {
                            None
                        },
                        None => None,
                    }
                }
            },
        },
    }
}

/// The first `n` bids and asks of the JSON object at the start of `t` (what
/// follows the object is not read). Its keys must be strings without escapes;
/// the values of other keys must be JSON values.
pub open spec fn raw_top_n(t: Seq<char>, n: nat) -> Option<(Seq<PairV>, Seq<PairV>)> {
    let p = skip_ws(t, 0);
    if p >= t.len() || t[p] != '{' {
        None
    } else {
        raw_members(t, p + 1, true, n, Seq::empty(), Seq::empty())
    }
}

// ------------------------------------------------------------------------------------------
// Executable reading
// ------------------------------------------------------------------------------------------
pub enum Step {
    Error,
    End(usize),
    Elem(usize),
}

pub open spec fn step_view(s: Step) -> SeqStep {
    match s {
        Step::Error => SeqStep::Error,
        Step::End(a) => SeqStep::End { after: a as int },
        Step::Elem(a) => SeqStep::Elem { at: a as int },
    }
}

pub(crate) fn seq_step_exec(t: &Vec<char>, i: usize, first: bool) -> (r: Step)
    requires
        i <= t.len(),
    ensures
        step_view(r) == seq_step(t@, i as int, first),
        r matches Step::End(a) ==> i < a <= t.len(),
        r matches Step::Elem(a) ==> i <= a < t.len(),
{
    let q = skip_ws_exec(t, i);
    if q >= t.len() {
        Step::Error
    } else if t[q] == ']' {
        Step::End(q + 1)
    } else if first {
        Step::Elem(q)
    } else if t[q] == ',' {
        let q2 = skip_ws_exec(t, q + 1);
        if q2 >= t.len() || t[q2] == ']' {
            Step::Error
        } else {
            Step::Elem(q2)
        }
    } else {
        Step::Error
    }
}

pub(crate) fn map_step_exec(t: &Vec<char>, i: usize, first: bool) -> (r: Step)
    requires
        i <= t.len(),
    ensures
        step_view(r) == map_step(t@, i as int, first),
        r matches Step::End(a) ==> i < a <= t.len(),
        r matches Step::Elem(a) ==> i <= a < t.len(),
{
    let q = skip_ws_exec(t, i);
    if q >= t.len() {
        Step::Error
    } else if t[q] == '}' {
        Step::End(q + 1)
    } else if first {
        if t[q] == '"' {
            Step::Elem(q)
        } else {
            Step::Error
        }
    } else if t[q] == ',' {
        let q2 = skip_ws_exec(t, q + 1);
        if q2 < t.len() && t[q2] == '"' {
            Step::Elem(q2)
        } else {
            Step::Error
        }
    } else {
        Step::Error
    }
}

pub(crate) fn pair_at_exec(t: &Vec<char>, i: usize) -> (r: Option<(PxQt, usize)>)
    requires
        i <= t.len(),
    ensures
        r matches Some((pq, e)) ==> pair_at(t@, i as int) == Some((pair_view(pq), e as int)) && i < e
            <= t.len(),
        r is None ==> pair_at(t@, i as int) is None,
{
    let p = skip_ws_exec(t, i);
    if p >= t.len() || t[p] != '[' {
        return None;
    }
    let q = skip_ws_exec(t, p + 1);
    if q >= t.len() || t[q] != '"' {
        return None;
    }
    let (a, e1) = match parse_str_exec(t, q + 1) {
        Some(x) => x,
        None => {
            return None;
        },
    };
    let r = skip_ws_exec(t, e1);
    if r >= t.len() || t[r] != ',' {
        return None;
    }
    let r2 = skip_ws_exec(t, r + 1);
    if r2 >= t.len() || t[r2] != '"' {
        return None;
    }
    let (b, e2) = match parse_str_exec(t, r2 + 1) {
        Some(x) => x,
        None => {
            return None;
        },
    };
    let w = skip_ws_exec(t, e2);
    if w < t.len() && t[w] == ']' {
        let pq: PxQt = [a, b];
        Some((pq, w + 1))
    } else {
        None
    }
}

proof fn lemma_ladder_view_push(l: Seq<PxQt>, pq: PxQt)
    ensures
        ladder_view(l.push(pq)) == ladder_view(l).push(pair_view(pq)),
{
    assert(ladder_view(l.push(pq)) =~= ladder_view(l).push(pair_view(pq)));
}

/// Reads an array from `i` on, the first `n` elements as pairs.
pub(crate) fn top_n_array_exec(t: &Vec<char>, i: usize, n: usize) -> (r: Option<(PxQtLadder, usize)>)
    requires
        i <= t.len(),
    ensures
        r matches Some((l, e)) ==> top_n_array(t@, i as int, n as nat) == Some(
            (ladder_view(l@), e as int),
        ) && i < e <= t.len(),
        r is None ==> top_n_array(t@, i as int, n as nat) is None,
{
    let p = skip_ws_exec(t, i);
    if p >= t.len() || t[p] != '[' {
        return None;
    }
    let mut out: PxQtLadder = Vec::new();
    let mut pos = p + 1;
    let mut first = true;
    assert(ladder_view(out@) =~= Seq::<PairV>::empty());
    loop
        invariant
            p < pos <= t.len(),
            i <= p,
            top_n_array(t@, i as int, n as nat) == top_n_elems(
                t@,
                pos as int,
                first,
                n as nat,
                ladder_view(out@),
            ),
        decreases t.len() - pos,
    {
        match seq_step_exec(t, pos, first) {
            Step::Error => {
                return None;
            },
            Step::End(after) => {
                return Some((out, after));
            },
            Step::Elem(at) => {
                if out.len() < n {
                    match pair_at_exec(t, at) {
                        Some((pq, e)) => {
                            proof {
                                lemma_ladder_view_push(out@, pq);
                            }
                            out.push(pq);
                            pos = e;
                            first = false;
                        },
                        None => {
                            return None;
                        },
                    }
                } else {
                    match value_end_exec(t, at, false) {
                        Some(e) => {
                            pos = e;
                            first = false;
                        },
                        None => {
                            return None;
                        },
                    }
                }
            },
        }
    }
}

/// Whether `t[start..end]` is `w`.
pub(crate) fn chars_equal(t: &Vec<char>, start: usize, end: usize, w: &[char]) -> (r: bool)
    requires
        start <= end <= t.len(),
    ensures
        r == (t@.subrange(start as int, end as int) == w@),
{
    if end - start != w.len() {
        return false;
    }
    let mut k: usize = 0;
    while k < w.len()
        invariant
            start + w.len() == end <= t.len(),
            k <= w.len(),
            forall|m: int| 0 <= m < k ==> t@[start + m] == w@[m],
        decreases w.len() - k,
    {
        if t[start + k] != w[k] {
            assert(t@.subrange(start as int, end as int)[k as int] != w@[k as int]);
            return false;
        }
        k += 1;
    }
    assert(t@.subrange(start as int, end as int) =~= w@);
    true
}

/// The first `n` bids and asks of the JSON object at the start of `t`.
pub fn raw_top_n_exec(t: &Vec<char>, n: usize) -> (r: Option<(PxQtLadder, PxQtLadder)>)
    ensures
        r matches Some((b, a)) ==> raw_top_n(t@, n as nat) == Some((ladder_view(b@), ladder_view(a@))),
        r is None ==> raw_top_n(t@, n as nat) is None,
{
    let p = skip_ws_exec(t, 0);
    if p >= t.len() || t[p] != '{' {
        return None;
    }
    let mut bids: PxQtLadder = Vec::new();
    let mut asks: PxQtLadder = Vec::new();
    let mut pos = p + 1;
    let mut first = true;
    assert(ladder_view(bids@) =~= Seq::<PairV>::empty());
    assert(ladder_view(asks@) =~= Seq::<PairV>::empty());
    let bw = ['b', 'i', 'd', 's'];
    let aw = ['a', 's', 'k', 's'];
    assert(bw@ =~= bids_word());
    assert(aw@ =~= asks_word());
    loop
        invariant
            pos <= t.len(),
            bw@ == bids_word(),
            aw@ == asks_word(),
            raw_top_n(t@, n as nat) == raw_members(
                t@,
                pos as int,
                first,
                n as nat,
                ladder_view(bids@),
                ladder_view(asks@),
            ),
        decreases t.len() - pos,
    {
        match map_step_exec(t, pos, first) {
            Step::Error => {
                return None;
            },
            Step::End(_after) => {
                return Some((bids, asks));
            },
            Step::Elem(at) => {
                let ke = match plain_str_end_exec(t, at + 1) {
                    Some(ke) => ke,
                    None => {
                        return None;
                    },
                };
                let c = skip_ws_exec(t, ke);
                if c >= t.len() || t[c] != ':' {
                    return None;
                }
                if chars_equal(t, at + 1, ke - 1, bw.as_slice()) {
                    match top_n_array_exec(t, c + 1, n) {
                        Some((l, e)) => {
                            bids = l;
                            pos = e;
                            first = false;
                        },
                        None => {
                            return None;
                        },
                    }
                } else if chars_equal(t, at + 1, ke - 1, aw.as_slice()) {
                    match top_n_array_exec(t, c + 1, n) {
                        Some((l, e)) => {
                            asks = l;
                            pos = e;
                            first = false;
                        },
                        None => {
                            return None;
                        },
                    }
                } else {
                    match value_end_exec(t, c + 1, true) {
                        Some(e) => {
                            pos = e;
                            first = false;
                        },
                        None => {
                            return None;
                        },
                    }
                }
            },
        }
    }
}

// ------------------------------------------------------------------------------------------
// Records
// ------------------------------------------------------------------------------------------
/// The kinds of fields of the book records.
#[derive(Clone, Copy, PartialEq, Eq)]
pub enum FieldKind {
    /// An unsigned 64-bit integer.
    Uint,
    /// A string.
    Text,
    /// A ladder of `[price, quantity]` pairs.
    Ladder,
    /// A Bitstamp order book data record.
    Data,
}

/// A field value as read.
pub enum FieldVal {
    Uint(nat),
    Text(Seq<char>),
    Ladder(Seq<PairV>),
    Data(Seq<FieldVal>),
}

pub open spec fn timestamp_word() -> Seq<char> {
    seq!['t', 'i', 'm', 'e', 's', 't', 'a', 'm', 'p']
}

pub open spec fn microtimestamp_word() -> Seq<char> {
    seq!['m', 'i', 'c', 'r', 'o', 't', 'i', 'm', 'e', 's', 't', 'a', 'm', 'p']
}

/// The fields of the Bitstamp order book data record.
pub open spec fn data_schema() -> Seq<(Seq<char>, FieldKind)> {
    seq![
        (timestamp_word(), FieldKind::Text),
        (microtimestamp_word(), FieldKind::Text),
        (bids_word(), FieldKind::Ladder),
        (asks_word(), FieldKind::Ladder),
    ]
}

/// End of the integer digits that start at `p` (a leading `0` stands alone).
pub open spec fn uint_end(t: Seq<char>, p: int) -> int {
    if t[p] == '0' {
        p + 1
    } else {
        p + digit_run(t, p)
    }
}

/// An unsigned integer read from `i` on. Negative numbers, fractions, exponents
/// and values above `u64::MAX` are refused.
pub open spec fn uint_at(t: Seq<char>, i: int) -> Option<(nat, int)> {
    let p = skip_ws(t, i);
    if i < 0 || p < i || p >= t.len() || !is_digit(t[p]) {
        None
    } else {
        let k = uint_end(t, p);
        if t[p] == '0' && k < t.len() && is_digit(t[k]) {
            None
        } else if k < t.len() && (t[k] == '.' || t[k] == 'e' || t[k] == 'E') {
            None
        } else if digits_value(t.subrange(p, k)) > u64::MAX {
            None
        } else {
            Some((digits_value(t.subrange(p, k)), k))
        }
    }
}

/// A string read from `i` on.
pub open spec fn string_at(t: Seq<char>, i: int) -> Option<(Seq<char>, int)> {
    let p = skip_ws(t, i);
    if i < 0 || p < i || p >= t.len() || t[p] != '"' {
        None
    } else {
        parse_str(t, p + 1)
    }
}

pub open spec fn ladder_elems(t: Seq<char>, i: int, first: bool, acc: Seq<PairV>) -> Option<
    (Seq<PairV>, int),
>
    decreases t.len() - i,
{
    match seq_step(t, i, first) {
        SeqStep::Error => None,
        SeqStep::End { after } => Some((acc, after)),
        SeqStep::Elem { at } => match pair_at(t, at) {
            Some((pv, e)) => if i < e <= t.len() {
                ladder_elems(t, e, false, acc.push(pv))
            } else {
                None
            },
            None => None,
        },
    }
}

/// A whole ladder read from `i` on.
pub open spec fn ladder_at(t: Seq<char>, i: int) -> Option<(Seq<PairV>, int)> {
    let p = skip_ws(t, i);
    if i < 0 || p < i || p >= t.len() || t[p] != '[' {
        None
    } else {
        ladder_elems(t, p + 1, true, Seq::empty())
    }
}

/// A field of kind `kind` read from `i` on; records may nest `level` deep.
pub open spec fn field_at(t: Seq<char>, i: int, kind: FieldKind, level: nat) -> Option<(FieldVal, int)>
    decreases level, t.len() - i, 0int,
{
    match kind {
        FieldKind::Uint => match uint_at(t, i) {
            Some((v, e)) => Some((FieldVal::Uint(v), e)),
            None => None,
        },
        FieldKind::Text => match string_at(t, i) {
            Some((v, e)) => Some((FieldVal::Text(v), e)),
            None => None,
        },
        FieldKind::Ladder => match ladder_at(t, i) {
            Some((v, e)) => Some((FieldVal::Ladder(v), e)),
            None => None,
        },
        FieldKind::Data => if level > 0 {
            match record_at(t, i, data_schema(), (level - 1) as nat) {
                Some((v, e)) => Some((FieldVal::Data(v), e)),
                None => None,
            }
        } else {
            None
        },
    }
}

/// Position of the field named `key` in `schema` from `k` on, or -1.
pub open spec fn field_index(schema: Seq<(Seq<char>, FieldKind)>, key: Seq<char>, k: int) -> int
    decreases schema.len() - k,
{
    if k < 0 || k >= schema.len() {
        -1
    } else if schema[k].0 == key {
        k
    } else {
        field_index(schema, key, k + 1)
    }
}

/// The fields of a record written as an array, from `i` on, those read so far
/// in `acc`.
pub open spec fn record_seq(
    t: Seq<char>,
    i: int,
    schema: Seq<(Seq<char>, FieldKind)>,
    level: nat,
    acc: Seq<FieldVal>,
) -> Option<(Seq<FieldVal>, int)>
    decreases level, t.len() - i, 1int, schema.len() - acc.len(),
{
    if acc.len() < schema.len() {
        match seq_step(t, i, acc.len() == 0) {
            SeqStep::Elem { at } => if i <= at {
                match field_at(t, at, schema[acc.len() as int].1, level) {
                    Some((v, e)) => if i < e <= t.len() {
                        record_seq(t, e, schema, level, acc.push(v))
                    } else {
                        None
                    },
                    None => None,
                }
            } else {
                None
            },
            _ => None,
        }
    } else {
        let w = skip_ws(t, i);
        if 0 <= i <= w && w < t.len() && t[w] == ']' {
            Some((acc, w + 1))
        } else {
            None
        }
    }
}

/// The fields of a record written as an object, from `i` on; `vals` holds the
/// fields read so far.
pub open spec fn record_map(
    t: Seq<char>,
    i: int,
    first: bool,
    schema: Seq<(Seq<char>, FieldKind)>,
    level: nat,
    vals: Seq<Option<FieldVal>>,
) -> Option<(Seq<FieldVal>, int)>
    decreases level, t.len() - i, 1int, 0int,
{
    match map_step(t, i, first) {
        SeqStep::Error => None,
        SeqStep::End { after } => if forall|k: int| 0 <= k < vals.len() ==> #[trigger] vals[k] is Some {
            Some((vals.map_values(|o: Option<FieldVal>| o->0), after))
        } else {
            None
        },
        SeqStep::Elem { at } => match parse_str(t, at + 1) {
            None => None,
            Some((key, ke)) => {
                let c = skip_ws(t, ke);
                if at < i || ke <= at || c < ke || c >= t.len() || t[c] != ':' {
                    None
                } else {
                    let idx = field_index(schema, key, 0);
                    if 0 <= idx < schema.len() && idx < vals.len() {
                        if vals[idx] is Some {
                            None
                        } else {
                            match field_at(t, c + 1, schema[idx].1, level) {
                                Some((v, e)) => if i < e <= t.len() {
                                    record_map(t, e, false, schema, level, vals.update(idx, Some(v)))
                                } else {
                                    None
                                },
                                None => None,
                            }
                        }
                    } else {
                        match value_end(t, c + 1, false) {
                            Some(e) => if i < e <= t.len() {
                                record_map(t, e, false, schema, level, vals)
                            } else {
                                None
                            },
                            None => None,
                        }
                    }
                }
            },
        },
    }
}

/// A record with the fields of `schema` read from `i` on.
pub open spec fn record_at(t: Seq<char>, i: int, schema: Seq<(Seq<char>, FieldKind)>, level: nat) -> Option<
    (Seq<FieldVal>, int),
>
    decreases level, t.len() - i, 2int,
{
    let p = skip_ws(t, i);
    if i < 0 || p < i || p >= t.len() {
        None
    } else if t[p] == '[' {
        record_seq(t, p + 1, schema, level, Seq::empty())
    } else if t[p] == '{' {
        record_map(t, p + 1, true, schema, level, Seq::new(schema.len(), |k: int| None))
    } else {
        None
    }
}

/// The fields of the record that the whole text `t` holds (nothing but
/// whitespace may follow it).
pub open spec fn record_json(t: Seq<char>, schema: Seq<(Seq<char>, FieldKind)>, level: nat) -> Option<
    Seq<FieldVal>,
> {
    match record_at(t, 0, schema, level) {
        Some((v, e)) => if skip_ws(t, e) == t.len() {
            Some(v)
        } else {
            None
        },
        None => None,
    }
}

/// A field value as read, executable form.
pub enum FieldValue {
    Uint(u64),
    Text(String),
    Ladder(PxQtLadder),
    Data(OrderBookData),
}

pub open spec fn data_view(d: OrderBookData) -> Seq<FieldVal> {
    seq![
        FieldVal::Text(d.timestamp@),
        FieldVal::Text(d.microtimestamp@),
        FieldVal::Ladder(ladder_view(d.bids@)),
        FieldVal::Ladder(ladder_view(d.asks@)),
    ]
}

impl View for FieldValue {
    type V = FieldVal;

    open spec fn view(&self) -> FieldVal {
        match self {
            FieldValue::Uint(v) => FieldVal::Uint(*v as nat),
            FieldValue::Text(s) => FieldVal::Text(s@),
            FieldValue::Ladder(l) => FieldVal::Ladder(ladder_view(l@)),
            FieldValue::Data(d) => FieldVal::Data(data_view(*d)),
        }
    }
}

pub open spec fn fields_view(v: Seq<FieldValue>) -> Seq<FieldVal> {
    v.map_values(|f: FieldValue| f@)
}

/// Whether a value read is of the kind of its field.
pub open spec fn has_kind(v: FieldVal, k: FieldKind) -> bool {
    match (v, k) {
        (FieldVal::Uint(_), FieldKind::Uint) => true,
        (FieldVal::Text(_), FieldKind::Text) => true,
        (FieldVal::Ladder(_), FieldKind::Ladder) => true,
        (FieldVal::Data(fs), FieldKind::Data) => fs.len() == 4 && fs[0] is Text && fs[1] is Text
            && fs[2] is Ladder && fs[3] is Ladder,
        _ => false,
    }
}

pub open spec fn schema_view(s: Seq<(Vec<char>, FieldKind)>) -> Seq<(Seq<char>, FieldKind)> {
    s.map_values(|f: (Vec<char>, FieldKind)| (f.0@, f.1))
}

proof fn lemma_digits_value_mono(s: Seq<char>, p: int, j: int, k: int)
    requires
        0 <= p <= j <= k <= s.len(),
        forall|m: int| p <= m < k ==> is_digit(#[trigger] s[m]),
    ensures
        digits_value(s.subrange(p, j)) <= digits_value(s.subrange(p, k)),
    decreases k - j,
{
    if j < k {
        lemma_digits_value_mono(s, p, j, k - 1);
        assert(s.subrange(p, k).drop_last() =~= s.subrange(p, k - 1));
    }
}

fn uint_at_exec(t: &Vec<char>, i: usize) -> (r: Option<(u64, usize)>)
    requires
        i <= t.len(),
    ensures
        r matches Some((v, e)) ==> uint_at(t@, i as int) == Some((v as nat, e as int)) && i < e <= t.len(),
        r is None ==> uint_at(t@, i as int) is None,
{
    let p = skip_ws_exec(t, i);
    if p >= t.len() || !is_digit_exec(t[p]) {
        return None;
    }
    let k = if t[p] == '0' {
        p + 1
    } else {
        let d = digit_run_exec(t, p);
        p + d
    };
    proof {
        lemma_digit_run_bound(t@, p as int);
    }
    if t[p] == '0' && k < t.len() && is_digit_exec(t[k]) {
        return None;
    }
    if k < t.len() && (t[k] == '.' || t[k] == 'e' || t[k] == 'E') {
        return None;
    }
    assert(forall|m: int| p <= m < k ==> is_digit(#[trigger] t@[m]));
    let ghost kk: int = uint_end(t@, p as int);
    assert(kk == k);
    let mut acc: u64 = 0;
    let mut j = p;
    assert(t@.subrange(p as int, p as int) =~= Seq::<char>::empty());
    while j < k
        invariant
            p <= j <= k <= t.len(),
            p == skip_ws(t@, i as int),
            i <= p,
            p < t.len() && is_digit(t@[p as int]),
            kk == k,
            kk == uint_end(t@, p as int),
            !(t@[p as int] == '0' && k < t.len() && is_digit(t@[k as int])),
            !(k < t.len() && (t@[k as int] == '.' || t@[k as int] == 'e' || t@[k as int] == 'E')),
            forall|m: int| p <= m < k ==> is_digit(#[trigger] t@[m]),
            acc == digits_value(t@.subrange(p as int, j as int)),
        decreases k - j,
    {
        let c = t[j];
        assert(is_digit(t@[j as int]));
        let d: u64 = (c as u32 - '0' as u32) as u64;
        let ghost next = t@.subrange(p as int, j + 1);
        assert(next.drop_last() =~= t@.subrange(p as int, j as int));
        assert(digits_value(next) == acc * 10 + digit_val(c));
        assert(d == digit_val(c));
        if acc > 1844674407370955161 || (acc == 1844674407370955161 && d > 5) {
            assert(digits_value(next) > u64::MAX);
            proof {
                lemma_digits_value_mono(t@, p as int, j + 1, k as int);
            }
            assert(digits_value(t@.subrange(p as int, k as int)) > u64::MAX);
            return None;
        }
        acc = acc * 10 + d;
        j += 1;
    }
    Some((acc, k))
}

fn string_at_exec(t: &Vec<char>, i: usize) -> (r: Option<(String, usize)>)
    requires
        i <= t.len(),
    ensures
        r matches Some((s, e)) ==> string_at(t@, i as int) == Some((s@, e as int)) && i < e <= t.len(),
        r is None ==> string_at(t@, i as int) is None,
{
    let p = skip_ws_exec(t, i);
    if p >= t.len() || t[p] != '"' {
        return None;
    }
    parse_str_exec(t, p + 1)
}

fn ladder_at_exec(t: &Vec<char>, i: usize) -> (r: Option<(PxQtLadder, usize)>)
    requires
        i <= t.len(),
    ensures
        r matches Some((l, e)) ==> ladder_at(t@, i as int) == Some((ladder_view(l@), e as int)) && i
            < e <= t.len(),
        r is None ==> ladder_at(t@, i as int) is None,
{
    let p = skip_ws_exec(t, i);
    if p >= t.len() || t[p] != '[' {
        return None;
    }
    let mut out: PxQtLadder = Vec::new();
    let mut pos = p + 1;
    let mut first = true;
    assert(ladder_view(out@) =~= Seq::<PairV>::empty());
    loop
        invariant
            p < pos <= t.len(),
            i <= p,
            ladder_at(t@, i as int) == ladder_elems(t@, pos as int, first, ladder_view(out@)),
        decreases t.len() - pos,
    {
        match seq_step_exec(t, pos, first) {
            Step::Error => {
                return None;
            },
            Step::End(after) => {
                return Some((out, after));
            },
            Step::Elem(at) => {
                match pair_at_exec(t, at) {
                    Some((pq, e)) => {
                        proof {
                            lemma_ladder_view_push(out@, pq);
                        }
                        out.push(pq);
                        pos = e;
                        first = false;
                    },
                    None => {
                        return None;
                    },
                }
            },
        }
    }
}

pub(crate) fn word_chars(w: &[char]) -> (r: Vec<char>)
    ensures
        r@ == w@,
{
    let mut v: Vec<char> = Vec::new();
    let mut k: usize = 0;
    while k < w.len()
        invariant
            k <= w.len(),
            v@ =~= w@.subrange(0, k as int),
        decreases w.len() - k,
    {
        v.push(w[k]);
        k += 1;
    }
    v
}

/// The fields of the Bitstamp order book data record.
pub(crate) fn data_schema_exec() -> (r: Vec<(Vec<char>, FieldKind)>)
    ensures
        schema_view(r@) == data_schema(),
{
    let mut r: Vec<(Vec<char>, FieldKind)> = Vec::new();
    let ts = word_chars(['t', 'i', 'm', 'e', 's', 't', 'a', 'm', 'p'].as_slice());
    let mts = word_chars(
        ['m', 'i', 'c', 'r', 'o', 't', 'i', 'm', 'e', 's', 't', 'a', 'm', 'p'].as_slice(),
    );
    let bw = word_chars(['b', 'i', 'd', 's'].as_slice());
    let aw = word_chars(['a', 's', 'k', 's'].as_slice());
    r.push((ts, FieldKind::Text));
    r.push((mts, FieldKind::Text));
    r.push((bw, FieldKind::Ladder));
    r.push((aw, FieldKind::Ladder));
    assert(schema_view(r@) =~= data_schema());
    r
}

fn seq_equal(a: &Vec<char>, b: &Vec<char>) -> (r: bool)
    ensures
        r == (a@ == b@),
{
    if a.len() != b.len() {
        return false;
    }
    let mut k: usize = 0;
    while k < a.len()
        invariant
            a.len() == b.len(),
            k <= a.len(),
            forall|m: int| 0 <= m < k ==> a@[m] == b@[m],
        decreases a.len() - k,
    {
        if a[k] != b[k] {
            return false;
        }
        k += 1;
    }
    assert(a@ =~= b@);
    true
}

fn field_index_exec(schema: &Vec<(Vec<char>, FieldKind)>, key: &Vec<char>) -> (r: Option<usize>)
    ensures
        r matches Some(k) ==> field_index(schema_view(schema@), key@, 0) == k && k < schema.len(),
        r is None ==> field_index(schema_view(schema@), key@, 0) == -1,
{
    let ghost sv = schema_view(schema@);
    let mut k: usize = 0;
    while k < schema.len()
        invariant
            k <= schema.len(),
            sv == schema_view(schema@),
            field_index(sv, key@, 0) == field_index(sv, key@, k as int),
        decreases schema.len() - k,
    {
        if seq_equal(&schema[k].0, key) {
            return Some(k);
        }
        k += 1;
    }
    None
}

/// Builds the data record from its four fields.
fn data_from_fields(mut v: Vec<FieldValue>) -> (r: OrderBookData)
    requires
        has_kind(FieldVal::Data(fields_view(v@)), FieldKind::Data),
    ensures
        data_view(r) == fields_view(v@),
{
    let ghost fv = fields_view(v@);
    assert(v@.len() == 4);
    let a = v.pop();
    let b = v.pop();
    let m = v.pop();
    let ts = v.pop();
    match (ts, m, b, a) {
        (
            Some(FieldValue::Text(ts)),
            Some(FieldValue::Text(m)),
            Some(FieldValue::Ladder(b)),
            Some(FieldValue::Ladder(a)),
        ) => {
            let d = OrderBookData { timestamp: ts, microtimestamp: m, bids: b, asks: a };
            assert(data_view(d) =~= fv);
            d
        },
        _ => {
            assert(false);
            OrderBookData { timestamp: String::new(), microtimestamp: String::new(), bids: Vec::new(), asks: Vec::new() }
        },
    }
}

/// Reads a field of kind `kind` from `i` on.
fn field_at_exec(t: &Vec<char>, i: usize, kind: FieldKind, level: usize) -> (r: Option<(FieldValue, usize)>)
    requires
        i <= t.len(),
    ensures
        r matches Some((v, e)) ==> field_at(t@, i as int, kind, level as nat) == Some((v@, e as int))
            && i < e <= t.len() && has_kind(v@, kind),
        r is None ==> field_at(t@, i as int, kind, level as nat) is None,
    decreases level, 0int,
{
    match kind {
        FieldKind::Uint => match uint_at_exec(t, i) {
            Some((v, e)) => Some((FieldValue::Uint(v), e)),
            None => None,
        },
        FieldKind::Text => match string_at_exec(t, i) {
            Some((v, e)) => Some((FieldValue::Text(v), e)),
            None => None,
        },
        FieldKind::Ladder => match ladder_at_exec(t, i) {
            Some((v, e)) => Some((FieldValue::Ladder(v), e)),
            None => None,
        },
        FieldKind::Data => {
            if level == 0 {
                return None;
            }
            let schema = data_schema_exec();
            match record_at_exec(t, i, &schema, level - 1) {
                Some((v, e)) => {
                    let ghost fv = fields_view(v@);
                    let d = data_from_fields(v);
                    Some((FieldValue::Data(d), e))
                },
                None => None,
            }
        },
    }
}

/// Reads a record with the fields of `schema` from `i` on.
pub(crate) fn record_at_exec(t: &Vec<char>, i: usize, schema: &Vec<(Vec<char>, FieldKind)>, level: usize) -> (r:
    Option<(Vec<FieldValue>, usize)>)
    requires
        i <= t.len(),
    ensures
        r matches Some((v, e)) ==> record_at(t@, i as int, schema_view(schema@), level as nat) == Some(
            (fields_view(v@), e as int),
        ) && i < e <= t.len() && v@.len() == schema@.len() && (forall|k: int|
            0 <= k < v@.len() ==> has_kind(#[trigger] fields_view(v@)[k], schema_view(schema@)[k].1)),
        r is None ==> record_at(t@, i as int, schema_view(schema@), level as nat) is None,
    decreases level, 2int,
{
    let p = skip_ws_exec(t, i);
    if p >= t.len() {
        return None;
    }
    if t[p] == '[' {
        record_seq_exec(t, p + 1, schema, level)
    } else if t[p] == '{' {
        record_map_exec(t, p + 1, schema, level)
    } else {
        None
    }
}

fn record_seq_exec(t: &Vec<char>, i: usize, schema: &Vec<(Vec<char>, FieldKind)>, level: usize) -> (r:
    Option<(Vec<FieldValue>, usize)>)
    requires
        0 < i <= t.len(),
    ensures
        r matches Some((v, e)) ==> record_seq(
            t@,
            i as int,
            schema_view(schema@),
            level as nat,
            Seq::empty(),
        ) == Some((fields_view(v@), e as int)) && i < e <= t.len() && v@.len() == schema@.len() && (
        forall|k: int|
            0 <= k < v@.len() ==> has_kind(#[trigger] fields_view(v@)[k], schema_view(schema@)[k].1)),
        r is None ==> record_seq(t@, i as int, schema_view(schema@), level as nat, Seq::empty()) is None,
    decreases level, 1int,
{
    let ghost sv = schema_view(schema@);
    let mut acc: Vec<FieldValue> = Vec::new();
    let mut pos = i;
    assert(fields_view(acc@) =~= Seq::<FieldVal>::empty());
    while acc.len() < schema.len()
        invariant
            i <= pos <= t.len(),
            sv == schema_view(schema@),
            acc@.len() <= schema@.len(),
            acc@.len() > 0 ==> i < pos,
            record_seq(t@, i as int, sv, level as nat, Seq::empty()) == record_seq(
                t@,
                pos as int,
                sv,
                level as nat,
                fields_view(acc@),
            ),
            forall|k: int| 0 <= k < acc@.len() ==> has_kind(#[trigger] fields_view(acc@)[k], sv[k].1),
        decreases schema.len() - acc.len(),
    {
        match seq_step_exec(t, pos, acc.len() == 0) {
            Step::Elem(at) => {
                match field_at_exec(t, at, schema[acc.len()].1, level) {
                    Some((v, e)) => {
                        let ghost before = acc@;
                        acc.push(v);
                        assert(fields_view(acc@) =~= fields_view(before).push(v@));
                        assert forall|k: int| 0 <= k < acc@.len() implies has_kind(
                            #[trigger] fields_view(acc@)[k],
                            sv[k].1,
                        ) by {
                            if k < before.len() {
                                assert(fields_view(acc@)[k] == fields_view(before)[k]);
                            }
                        }
                        pos = e;
                    },
                    None => {
                        return None;
                    },
                }
            },
            _ => {
                return None;
            },
        }
    }
    let w = skip_ws_exec(t, pos);
    if w < t.len() && t[w] == ']' {
        Some((acc, w + 1))
    } else {
        None
    }
}

pub open spec fn seen_vals(seen: Seq<bool>, vals: Seq<FieldValue>) -> Seq<Option<FieldVal>> {
    Seq::new(seen.len(), |k: int| if seen[k] { Some(vals[k]@) } else { None })
}

fn record_map_exec(t: &Vec<char>, i: usize, schema: &Vec<(Vec<char>, FieldKind)>, level: usize) -> (r:
    Option<(Vec<FieldValue>, usize)>)
    requires
        0 < i <= t.len(),
    ensures
        r matches Some((v, e)) ==> record_map(
            t@,
            i as int,
            true,
            schema_view(schema@),
            level as nat,
            Seq::new(schema@.len(), |k: int| None),
        ) == Some((fields_view(v@), e as int)) && i < e <= t.len() && v@.len() == schema@.len() && (
        forall|k: int|
            0 <= k < v@.len() ==> has_kind(#[trigger] fields_view(v@)[k], schema_view(schema@)[k].1)),
        r is None ==> record_map(
            t@,
            i as int,
            true,
            schema_view(schema@),
            level as nat,
            Seq::new(schema@.len(), |k: int| None),
        ) is None,
    decreases level, 1int,
{
    let ghost sv = schema_view(schema@);
    let n = schema.len();
    let mut seen: Vec<bool> = Vec::new();
    let mut vals: Vec<FieldValue> = Vec::new();
    let mut k: usize = 0;
    while k < n
        invariant
            k <= n == schema@.len(),
            seen@.len() == k,
            vals@.len() == k,
            forall|m: int| 0 <= m < k ==> !(#[trigger] seen@[m]),
        decreases n - k,
    {
        seen.push(false);
        vals.push(FieldValue::Uint(0));
        k += 1;
    }
    assert(seen_vals(seen@, vals@) =~= Seq::new(schema@.len(), |k: int| None::<FieldVal>));
    let mut pos = i;
    let mut first = true;
    loop
        invariant
            i <= pos <= t.len(),
            !first ==> i < pos,
            sv == schema_view(schema@),
            seen@.len() == n == schema@.len(),
            vals@.len() == n,
            record_map(t@, i as int, true, sv, level as nat, Seq::new(n as nat, |k: int| None)) == record_map(
                t@,
                pos as int,
                first,
                sv,
                level as nat,
                seen_vals(seen@, vals@),
            ),
            forall|m: int| 0 <= m < n && #[trigger] seen@[m] ==> has_kind(vals@[m]@, sv[m].1),
        decreases t.len() - pos,
    {
        let ghost sval = seen_vals(seen@, vals@);
        match map_step_exec(t, pos, first) {
            Step::Error => {
                return None;
            },
            Step::End(after) => {
                let mut all = true;
                let mut m: usize = 0;
                while m < n
                    invariant
                        m <= n == seen@.len(),
                        sval == seen_vals(seen@, vals@),
                        all == (forall|q: int| 0 <= q < m ==> #[trigger] sval[q] is Some),
                    decreases n - m,
                {
                    assert(sval[m as int] is Some == seen@[m as int]);
                    if !seen[m] {
                        all = false;
                    }
                    m += 1;
                }
                if !all {
                    return None;
                }
                assert(sval.map_values(|o: Option<FieldVal>| o->0) =~= fields_view(vals@));
                assert forall|q: int| 0 <= q < vals@.len() implies has_kind(
                    #[trigger] fields_view(vals@)[q],
                    sv[q].1,
                ) by {
                    assert(sval[q] is Some);
                    assert(seen@[q]);
                }
                return Some((vals, after));
            },
            Step::Elem(at) => {
                let (key, ke) = match parse_str_exec(t, at + 1) {
                    Some(x) => x,
                    None => {
                        return None;
                    },
                };
                let c = skip_ws_exec(t, ke);
                if c >= t.len() || t[c] != ':' {
                    return None;
                }
                let key_chars = str_chars(key.as_str());
                match field_index_exec(schema, &key_chars) {
                    Some(idx) => {
                        if seen[idx] {
                            return None;
                        }
                        match field_at_exec(t, c + 1, schema[idx].1, level) {
                            Some((v, e)) => {
                                let ghost vv = v@;
                                seen.set(idx, true);
                                vals.set(idx, v);
                                assert(seen_vals(seen@, vals@) =~= sval.update(idx as int, Some(vv)));
                                pos = e;
                                first = false;
                            },
                            None => {
                                return None;
                            },
                        }
                    },
                    None => {
                        match value_end_exec(t, c + 1, false) {
                            Some(e) => {
                                pos = e;
                                first = false;
                            },
                            None => {
                                return None;
                            },
                        }
                    },
                }
            },
        }
    }
}

/// The fields of the record that the whole text `t` holds.
pub(crate) fn record_json_exec(t: &Vec<char>, schema: &Vec<(Vec<char>, FieldKind)>, level: usize) -> (r: Option<
    Vec<FieldValue>,
>)
    ensures
        r matches Some(v) ==> record_json(t@, schema_view(schema@), level as nat) == Some(fields_view(v@))
            && v@.len() == schema@.len() && (forall|k: int|
            0 <= k < v@.len() ==> has_kind(#[trigger] fields_view(v@)[k], schema_view(schema@)[k].1)),
        r is None ==> record_json(t@, schema_view(schema@), level as nat) is None,
{
    match record_at_exec(t, 0, schema, level) {
        Some((v, e)) => {
            if skip_ws_exec(t, e) == t.len() {
                Some(v)
            } else {
                None
            }
        },
        None => None,
    }
}

} // verus!
