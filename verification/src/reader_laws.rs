//! The partial reading of the best levels agrees with the complete reading of a
//! book record: where both succeed, the partial reading gives the first `n`
//! bids and asks of the record.
use vstd::prelude::*;
use crate::json::{
    skip_ws, is_ws, parse_str, parse_escape, skip_str, skip_escape, plain_str_end, number_end,
    scalar_end, scan, value_end, ScanMode, closer, hex4, is_leading_surrogate,
};
use crate::text_shift::lemma_skip_ws;
use crate::book_json::{
    PairV, SeqStep, seq_step, map_step, pair_at, top_n_elems, top_n_array, raw_members, raw_top_n,
    bids_word, asks_word, ladder_elems, ladder_at, uint_end, field_at, field_index, record_map,
    record_at, record_json, FieldKind, FieldVal, min_len,
};

verus! {

/// A string without escapes ends after its start and within the text.
pub(crate) proof fn lemma_plain_end_bound(t: Seq<char>, i: int)
    requires
        plain_str_end(t, i) is Some,
    ensures
        0 <= i < plain_str_end(t, i)->0 <= t.len(),
{
    lemma_plain_parse(t, i);
}

/// A string without escapes reads as the text between its quotes.
proof fn lemma_plain_parse(t: Seq<char>, i: int)
    requires
        plain_str_end(t, i) is Some,
    ensures
        0 <= i < plain_str_end(t, i)->0 <= t.len(),
        parse_str(t, i) == Some((t.subrange(i, plain_str_end(t, i)->0 - 1), plain_str_end(t, i)->0)),
    decreases t.len() - i,
{
    if t[i] == '"' {
        assert(t.subrange(i, i) =~= Seq::<char>::empty());
    } else {
        lemma_plain_parse(t, i + 1);
        let e = plain_str_end(t, i)->0;
        assert(seq![t[i]] + t.subrange(i + 1, e - 1) =~= t.subrange(i, e - 1));
    }
}

/// A string that decodes also passes the check of its form, ending at the same
/// place.
proof fn lemma_parse_skip(t: Seq<char>, i: int)
    requires
        parse_str(t, i) is Some,
    ensures
        skip_str(t, i) == str_end(parse_str(t, i)),
    decreases t.len() - i,
{
    if t[i] == '"' {
    } else if t[i] == '\\' {
        let (ch, j) = parse_escape(t, i + 1)->0;
        lemma_parse_skip(t, j);
        let u = i + 1;
        if t[u] == 'u' {
            let n = hex4(t, u + 1)->0;
            if is_leading_surrogate(n) {
                assert(skip_escape(t, u) == Some(u + 5));
                assert(skip_escape(t, u + 6) == Some(u + 11));
                assert(skip_str(t, u + 5) == skip_str(t, u + 11));
            }
        }
    } else {
        lemma_parse_skip(t, i + 1);
    }
}

pub(crate) open spec fn str_end(r: Option<(Seq<char>, int)>) -> Option<int> {
    match r {
        Some((_, e)) => Some(e),
        None => None,
    }
}

proof fn lemma_scalar_strict_loose(t: Seq<char>, p: int)
    requires
        scalar_end(t, p, true) is Some,
    ensures
        scalar_end(t, p, false) == scalar_end(t, p, true),
{
    if t[p] == '"' {
        lemma_parse_skip(t, p + 1);
    }
}

/// A value that passes the strict check passes the loose one, ending at the
/// same place.
proof fn lemma_scan_strict_loose(t: Seq<char>, pos: int, stack: Seq<char>, mode: ScanMode)
    requires
        scan(t, pos, stack, mode, true) is Some,
    ensures
        scan(t, pos, stack, mode, false) == scan(t, pos, stack, mode, true),
    decreases t.len() - pos, crate::json::scan_rank(mode),
{
    match mode {
        ScanMode::Value => {
            let p = skip_ws(t, pos);
            if t[p] == '[' || t[p] == '{' {
                lemma_scan_strict_loose(t, p + 1, stack.push(t[p]), ScanMode::Opened);
            } else {
                lemma_scalar_strict_loose(t, p);
                let e = scalar_end(t, p, true)->0;
                lemma_scan_strict_loose(t, e, stack, ScanMode::After);
            }
        },
        ScanMode::Opened => {
            let q = skip_ws(t, pos);
            if t[q] == closer(stack.last()) {
                if stack.len() != 1 {
                    lemma_scan_strict_loose(t, q + 1, stack.drop_last(), ScanMode::After);
                }
            } else if stack.last() == '[' {
                lemma_scan_strict_loose(t, q, stack, ScanMode::Value);
            } else {
                lemma_scan_strict_loose(t, q, stack, ScanMode::Key);
            }
        },
        ScanMode::After => {
            if stack.len() != 0 {
                let q = skip_ws(t, pos);
                if t[q] == ',' {
                    if stack.last() == '[' {
                        lemma_scan_strict_loose(t, q + 1, stack, ScanMode::Value);
                    } else {
                        lemma_scan_strict_loose(t, q + 1, stack, ScanMode::Key);
                    }
                } else if t[q] == closer(stack.last()) && stack.len() != 1 {
                    lemma_scan_strict_loose(t, q + 1, stack.drop_last(), ScanMode::After);
                }
            }
        },
        ScanMode::Key => {
            let q = skip_ws(t, pos);
            lemma_parse_skip(t, q + 1);
            let e = str_end(parse_str(t, q + 1))->0;
            let c = skip_ws(t, e);
            lemma_scan_strict_loose(t, c + 1, stack, ScanMode::Value);
        },
    }
}

/// A decoded string ends after its opening quote.
pub(crate) proof fn lemma_parse_str_bound(t: Seq<char>, i: int)
    requires
        parse_str(t, i) is Some,
    ensures
        0 <= i < str_end(parse_str(t, i))->0 <= t.len(),
{
    lemma_parse_str_end(t, i);
}

proof fn lemma_parse_str_end(t: Seq<char>, i: int)
    requires
        parse_str(t, i) is Some,
    ensures
        0 <= i < str_end(parse_str(t, i))->0 <= t.len(),
    decreases t.len() - i,
{
    if t[i] == '"' {
    } else if t[i] == '\\' {
        let (ch, j) = parse_escape(t, i + 1)->0;
        lemma_parse_str_end(t, j);
    } else {
        lemma_parse_str_end(t, i + 1);
    }
}

spec fn pair_end(r: Option<(PairV, int)>) -> Option<int> {
    match r {
        Some((_, e)) => Some(e),
        None => None,
    }
}

/// A `[price, quantity]` pair is a JSON value that ends where the pair ends.
proof fn lemma_pair_value_end(t: Seq<char>, at: int)
    requires
        pair_at(t, at) is Some,
    ensures
        value_end(t, at, false) == pair_end(pair_at(t, at)),
{
    let p = skip_ws(t, at);
    lemma_skip_ws(t, at);
    let q = skip_ws(t, p + 1);
    lemma_skip_ws(t, p + 1);
    lemma_parse_skip(t, q + 1);
    lemma_parse_str_end(t, q + 1);
    let e1 = str_end(parse_str(t, q + 1))->0;
    let r = skip_ws(t, e1);
    lemma_skip_ws(t, e1);
    let r2 = skip_ws(t, r + 1);
    lemma_skip_ws(t, r + 1);
    lemma_parse_skip(t, r2 + 1);
    lemma_parse_str_end(t, r2 + 1);
    let e2 = str_end(parse_str(t, r2 + 1))->0;
    let w = skip_ws(t, e2);
    lemma_skip_ws(t, e2);
    let st = seq!['['];
    assert(st.push('[') == seq!['[', '[']) by {
        assert(st.push('[') =~= seq!['[', '[']);
    }
    assert(Seq::<char>::empty().push('[') =~= st);
    assert(closer(st.last()) == ']');
    assert(scan(t, e2, st, ScanMode::After, false) == Some(w + 1));
    assert(scalar_end(t, r2, false) == Some(e2));
    assert(scan(t, r2, st, ScanMode::Value, false) == Some(w + 1));
    assert(scan(t, r + 1, st, ScanMode::Value, false) == Some(w + 1));
    assert(scan(t, e1, st, ScanMode::After, false) == Some(w + 1));
    assert(scalar_end(t, q, false) == Some(e1));
    assert(scan(t, q, st, ScanMode::Value, false) == Some(w + 1));
    assert(scan(t, p + 1, st, ScanMode::Opened, false) == Some(w + 1));
}

/// The first `n` levels of a ladder read in full.
spec fn take_top(r: Option<(Seq<PairV>, int)>, n: nat) -> Option<(Seq<PairV>, int)> {
    match r {
        Some((v, e)) => Some((v.take(min_len(n, v.len()) as int), e)),
        None => None,
    }
}

proof fn lemma_top_n_elems(t: Seq<char>, i: int, first: bool, n: nat, acc: Seq<PairV>)
    requires
        ladder_elems(t, i, first, acc) is Some,
        top_n_elems(t, i, first, n, acc.take(min_len(n, acc.len()) as int)) is Some,
    ensures
        top_n_elems(t, i, first, n, acc.take(min_len(n, acc.len()) as int)) == take_top(
            ladder_elems(t, i, first, acc),
            n,
        ),
    decreases t.len() - i,
{
    let acc2 = acc.take(min_len(n, acc.len()) as int);
    match seq_step(t, i, first) {
        SeqStep::End { after } => {},
        SeqStep::Elem { at } => {
            let (pv, e) = pair_at(t, at)->0;
            let next = acc.push(pv);
            if acc2.len() < n {
                assert(acc2 =~= acc);
                assert(next.take(min_len(n, next.len()) as int) =~= next);
            } else {
                lemma_pair_value_end(t, at);
                assert(next.take(min_len(n, next.len()) as int) =~= acc2);
            }
            lemma_top_n_elems(t, e, false, n, next);
        },
        SeqStep::Error => {},
    }
}

proof fn lemma_top_n_array(t: Seq<char>, i: int, n: nat)
    requires
        ladder_at(t, i) is Some,
        top_n_array(t, i, n) is Some,
    ensures
        top_n_array(t, i, n) == take_top(ladder_at(t, i), n),
{
    let p = skip_ws(t, i);
    let empty = Seq::<PairV>::empty();
    assert(empty.take(min_len(n, empty.len()) as int) =~= empty);
    lemma_top_n_elems(t, p + 1, true, n, empty);
}

spec fn field_end(r: Option<(FieldVal, int)>) -> Option<int> {
    match r {
        Some((_, e)) => Some(e),
        None => None,
    }
}

/// An integer or a string field that is also a JSON value ends where the field
/// ends.
proof fn lemma_field_value_end(t: Seq<char>, i: int, kind: FieldKind)
    requires
        kind == FieldKind::Uint || kind == FieldKind::Text,
        field_at(t, i, kind, 0) is Some,
        value_end(t, i, true) is Some,
    ensures
        value_end(t, i, true) == field_end(field_at(t, i, kind, 0)),
{
    let p = skip_ws(t, i);
    lemma_skip_ws(t, i);
    if kind == FieldKind::Uint {
        let k = uint_end(t, p);
        assert(number_end(t, p) == Some(k));
        assert(scalar_end(t, p, true) == Some(k));
        assert(scan(t, k, Seq::<char>::empty(), ScanMode::After, true) == Some(k));
    } else {
        lemma_parse_str_end(t, p + 1);
        let e = str_end(parse_str(t, p + 1))->0;
        assert(scalar_end(t, p, true) == Some(e));
        assert(scan(t, e, Seq::<char>::empty(), ScanMode::After, true) == Some(e));
    }
}

/// Where a field name is found in a schema.
proof fn lemma_field_index(schema: Seq<(Seq<char>, FieldKind)>, key: Seq<char>, k: int)
    requires
        0 <= k,
    ensures
        field_index(schema, key, k) == -1 || (k <= field_index(schema, key, k) < schema.len()
            && schema[field_index(schema, key, k)].0 == key),
    decreases schema.len() - k,
{
    if k < schema.len() && schema[k].0 != key {
        lemma_field_index(schema, key, k + 1);
    }
}

/// The first `n` levels of a read ladder field (none when it is not read yet).
spec fn top_of(o: Option<FieldVal>, n: nat) -> Seq<PairV> {
    match o {
        Some(FieldVal::Ladder(b)) => b.take(min_len(n, b.len()) as int),
        _ => Seq::empty(),
    }
}

/// A schema with a `bids` and an `asks` ladder at `bi` and `ai`, whose other
/// fields are integers or strings.
spec fn book_like(s: Seq<(Seq<char>, FieldKind)>, bi: int, ai: int) -> bool {
    &&& 0 <= bi < s.len()
    &&& 0 <= ai < s.len()
    &&& bi != ai
    &&& s[bi] == (bids_word(), FieldKind::Ladder)
    &&& s[ai] == (asks_word(), FieldKind::Ladder)
    &&& field_index(s, bids_word(), 0) == bi
    &&& field_index(s, asks_word(), 0) == ai
    &&& forall|k: int|
        0 <= k < s.len() && k != bi && k != ai ==> (#[trigger] s[k].1 == FieldKind::Uint || s[k].1
            == FieldKind::Text)
}

spec fn top_fields(r: Option<(Seq<FieldVal>, int)>, bi: int, ai: int, n: nat) -> Option<
    (Seq<PairV>, Seq<PairV>),
> {
    match r {
        Some((v, _)) => Some((top_of(Some(v[bi]), n), top_of(Some(v[ai]), n))),
        None => None,
    }
}

proof fn lemma_raw_members(
    t: Seq<char>,
    i: int,
    first: bool,
    s: Seq<(Seq<char>, FieldKind)>,
    vals: Seq<Option<FieldVal>>,
    n: nat,
    bi: int,
    ai: int,
)
    requires
        book_like(s, bi, ai),
        vals.len() == s.len(),
        record_map(t, i, first, s, 0, vals) is Some,
        raw_members(t, i, first, n, top_of(vals[bi], n), top_of(vals[ai], n)) is Some,
    ensures
        raw_members(t, i, first, n, top_of(vals[bi], n), top_of(vals[ai], n)) == top_fields(
            record_map(t, i, first, s, 0, vals),
            bi,
            ai,
            n,
        ),
    decreases t.len() - i,
{
    let bids = top_of(vals[bi], n);
    let asks = top_of(vals[ai], n);
    match map_step(t, i, first) {
        SeqStep::End { after } => {
            assert(vals[bi] is Some);
            assert(vals[ai] is Some);
            let fv = vals.map_values(|o: Option<FieldVal>| o->0);
            assert(Some(fv[bi]) == vals[bi]);
            assert(Some(fv[ai]) == vals[ai]);
        },
        SeqStep::Elem { at } => {
            lemma_plain_parse(t, at + 1);
            let ke = plain_str_end(t, at + 1)->0;
            let key = t.subrange(at + 1, ke - 1);
            let c = skip_ws(t, ke);
            let idx = field_index(s, key, 0);
            lemma_field_index(s, key, 0);
            if key == bids_word() {
                assert(idx == bi);
                let (v, e) = ladder_at(t, c + 1)->0;
                lemma_top_n_array(t, c + 1, n);
                let vals2 = vals.update(bi, Some(FieldVal::Ladder(v)));
                assert(top_of(vals2[bi], n) == v.take(min_len(n, v.len()) as int));
                assert(vals2[ai] == vals[ai]);
                lemma_raw_members(t, e, false, s, vals2, n, bi, ai);
            } else if key == asks_word() {
                assert(idx == ai);
                let (v, e) = ladder_at(t, c + 1)->0;
                lemma_top_n_array(t, c + 1, n);
                let vals2 = vals.update(ai, Some(FieldVal::Ladder(v)));
                assert(top_of(vals2[ai], n) == v.take(min_len(n, v.len()) as int));
                assert(vals2[bi] == vals[bi]);
                lemma_raw_members(t, e, false, s, vals2, n, bi, ai);
            } else if 0 <= idx < s.len() && idx < vals.len() {
                assert(idx != bi && idx != ai);
                assert(s[idx].1 == FieldKind::Uint || s[idx].1 == FieldKind::Text);
                lemma_field_value_end(t, c + 1, s[idx].1);
                let (v, e) = field_at(t, c + 1, s[idx].1, 0)->0;
                let vals2 = vals.update(idx, Some(v));
                assert(vals2[bi] == vals[bi]);
                assert(vals2[ai] == vals[ai]);
                lemma_raw_members(t, e, false, s, vals2, n, bi, ai);
            } else {
                lemma_scan_strict_loose(t, c + 1, Seq::empty(), ScanMode::Value);
                let e = value_end(t, c + 1, true)->0;
                lemma_raw_members(t, e, false, s, vals, n, bi, ai);
            }
        },
        SeqStep::Error => {},
    }
}

/// The first `n` bids and asks of a reading.
pub open spec fn top_levels(r: Option<(Seq<PairV>, Seq<PairV>)>, n: nat) -> Option<(Seq<PairV>, Seq<PairV>)> {
    match r {
        Some((b, a)) => Some((b.take(min_len(n, b.len()) as int), a.take(min_len(n, a.len()) as int))),
        None => None,
    }
}

proof fn lemma_record_agrees(t: Seq<char>, s: Seq<(Seq<char>, FieldKind)>, n: nat, bi: int, ai: int)
    requires
        book_like(s, bi, ai),
        record_json(t, s, 0) is Some,
        raw_top_n(t, n) is Some,
    ensures
        raw_top_n(t, n) == Some((
            top_of(Some(record_json(t, s, 0)->0[bi]), n),
            top_of(Some(record_json(t, s, 0)->0[ai]), n),
        )),
{
    let p = skip_ws(t, 0);
    let vals = Seq::new(s.len(), |k: int| None::<FieldVal>);
    assert(top_of(vals[bi], n) =~= Seq::<PairV>::empty());
    assert(top_of(vals[ai], n) =~= Seq::<PairV>::empty());
    lemma_raw_members(t, p + 1, true, s, vals, n, bi, ai);
}

proof fn lemma_binance_schema()
    ensures
        book_like(crate::binance::book_schema(), 1, 2),
{
    let s = crate::binance::book_schema();
    assert(s[0].0 != bids_word()) by {
        assert(s[0].0.len() != bids_word().len());
    }
    assert(s[0].0 != asks_word()) by {
        assert(s[0].0.len() != asks_word().len());
    }
    assert(s[1].0 != asks_word()) by {
        assert(s[1].0[0] != asks_word()[0]);
    }
    assert(field_index(s, bids_word(), 1) == 1);
    assert(field_index(s, bids_word(), 0) == 1);
    assert(field_index(s, asks_word(), 2) == 2);
    assert(field_index(s, asks_word(), 1) == 2);
    assert(field_index(s, asks_word(), 0) == 2);
}

proof fn lemma_bitstamp_schema()
    ensures
        book_like(crate::book_json::data_schema(), 2, 3),
{
    let s = crate::book_json::data_schema();
    assert(s[0].0 != bids_word()) by {
        assert(s[0].0.len() != bids_word().len());
    }
    assert(s[0].0 != asks_word()) by {
        assert(s[0].0.len() != asks_word().len());
    }
    assert(s[1].0 != bids_word()) by {
        assert(s[1].0.len() != bids_word().len());
    }
    assert(s[1].0 != asks_word()) by {
        assert(s[1].0.len() != asks_word().len());
    }
    assert(s[2].0 != asks_word()) by {
        assert(s[2].0[0] != asks_word()[0]);
    }
    assert(field_index(s, bids_word(), 2) == 2);
    assert(field_index(s, bids_word(), 1) == 2);
    assert(field_index(s, bids_word(), 0) == 2);
    assert(field_index(s, asks_word(), 3) == 3);
    assert(field_index(s, asks_word(), 2) == 3);
    assert(field_index(s, asks_word(), 1) == 3);
    assert(field_index(s, asks_word(), 0) == 3);
}

/// Where both readings of a Binance depth record succeed, the partial reading
/// (`get_top_n_bids_asks_raw`) gives the first `n` bids and asks of the complete
/// one (`get_top_n`).
pub proof fn law_partial_reading_agrees_binance(t: Seq<char>, n: nat)
    requires
        <crate::binance::OrderBook as crate::data_handler::JsonBook>::json_ladders(t) is Some,
        raw_top_n(t, n) is Some,
    ensures
        raw_top_n(t, n) == top_levels(
            <crate::binance::OrderBook as crate::data_handler::JsonBook>::json_ladders(t),
            n,
        ),
{
    lemma_binance_schema();
    lemma_record_agrees(t, crate::binance::book_schema(), n, 1, 2);
}

/// Where both readings of a Bitstamp order book data record succeed, the partial
/// reading (`get_top_n_bids_asks_raw`) gives the first `n` bids and asks of the
/// complete one (`get_top_n`).
pub proof fn law_partial_reading_agrees_bitstamp(t: Seq<char>, n: nat)
    requires
        <crate::bitstamp::OrderBookData as crate::data_handler::JsonBook>::json_ladders(t) is Some,
        raw_top_n(t, n) is Some,
    ensures
        raw_top_n(t, n) == top_levels(
            <crate::bitstamp::OrderBookData as crate::data_handler::JsonBook>::json_ladders(t),
            n,
        ),
{
    lemma_bitstamp_schema();
    lemma_record_agrees(t, crate::book_json::data_schema(), n, 2, 3);
}

spec fn result_fields(r: Option<(Seq<FieldVal>, int)>) -> Seq<FieldVal> {
    match r {
        Some((v, _)) => v,
        None => Seq::empty(),
    }
}

/// A field read before the rest of an object is what the record holds.
proof fn lemma_record_map_keeps(
    t: Seq<char>,
    i: int,
    first: bool,
    s: Seq<(Seq<char>, FieldKind)>,
    level: nat,
    vals: Seq<Option<FieldVal>>,
    kk: int,
)
    requires
        record_map(t, i, first, s, level, vals) is Some,
        0 <= kk < vals.len(),
        vals[kk] is Some,
    ensures
        result_fields(record_map(t, i, first, s, level, vals))[kk] == vals[kk]->0,
    decreases t.len() - i,
{
    match map_step(t, i, first) {
        SeqStep::Elem { at } => {
            let (key, ke) = parse_str(t, at + 1)->0;
            let c = skip_ws(t, ke);
            let idx = field_index(s, key, 0);
            if 0 <= idx < s.len() && idx < vals.len() {
                let (v, e) = field_at(t, c + 1, s[idx].1, level)->0;
                lemma_record_map_keeps(t, e, false, s, level, vals.update(idx, Some(v)), kk);
            } else {
                let e = value_end(t, c + 1, false)->0;
                lemma_record_map_keeps(t, e, false, s, level, vals, kk);
            }
        },
        _ => {},
    }
}

/// A data message read in full holds, as its `data` field, the record read at
/// the position after its `{"data":` prefix.
proof fn lemma_data_message_fields(t: Seq<char>)
    requires
        crate::bitstamp::data_prefix().is_prefix_of(t),
        record_json(t, crate::bitstamp::book_schema(), 1) is Some,
    ensures
        record_at(t, 8, crate::book_json::data_schema(), 0) is Some,
        record_json(t, crate::bitstamp::book_schema(), 1)->0[0] == FieldVal::Data(
            result_fields(record_at(t, 8, crate::book_json::data_schema(), 0)),
        ),
{
    let bs = crate::bitstamp::book_schema();
    let ds = crate::book_json::data_schema();
    let p = crate::bitstamp::data_prefix();
    assert(t[0] == p[0] && t[1] == p[1] && t[2] == p[2] && t[3] == p[3]);
    assert(t[4] == p[4] && t[5] == p[5] && t[6] == p[6] && t[7] == p[7]);
    assert(skip_ws(t, 0) == 0);
    assert(skip_ws(t, 1) == 1);
    assert(plain_str_end(t, 6) == Some(7int));
    assert(plain_str_end(t, 5) == Some(7int));
    assert(plain_str_end(t, 4) == Some(7int));
    assert(plain_str_end(t, 3) == Some(7int));
    assert(plain_str_end(t, 2) == Some(7int));
    lemma_plain_parse(t, 2);
    assert(t.subrange(2, 6) =~= crate::bitstamp::data_word());
    assert(skip_ws(t, 7) == 7);
    assert(field_index(bs, crate::bitstamp::data_word(), 0) == 0);
    let none3 = Seq::new(bs.len(), |k: int| None::<FieldVal>);
    assert(record_at(t, 0, bs, 1) == record_map(t, 1, true, bs, 1, none3));
    assert(map_step(t, 1, true) == SeqStep::Elem { at: 1 });
    let (vi, e) = record_at(t, 8, ds, 0)->0;
    lemma_record_map_keeps(t, e, false, bs, 1, none3.update(0, Some(FieldVal::Data(vi))), 0);
}

/// Where both readings of a Bitstamp data message succeed, the partial reading
/// of its order book data (the text after the `{"data":` prefix, as the feed
/// reads it) gives the first `n` bids and asks of the complete reading of the
/// message (`get_top_n`).
pub proof fn law_partial_reading_agrees_bitstamp_message(t: Seq<char>, n: nat)
    requires
        crate::bitstamp::data_prefix().is_prefix_of(t),
        <crate::bitstamp::OrderBook as crate::data_handler::JsonBook>::json_ladders(t) is Some,
        raw_top_n(t.skip(8), n) is Some,
    ensures
        raw_top_n(t.skip(8), n) == top_levels(
            <crate::bitstamp::OrderBook as crate::data_handler::JsonBook>::json_ladders(t),
            n,
        ),
{
    let ds = crate::book_json::data_schema();
    lemma_data_message_fields(t);
    crate::text_shift::lemma_shift_raw_top_n(t, 8, n);
    lemma_skip_ws(t, 8);
    let p8 = skip_ws(t, 8);
    let none4 = Seq::new(ds.len(), |k: int| None::<FieldVal>);
    assert(record_at(t, 8, ds, 0) == record_map(t, p8 + 1, true, ds, 0, none4));
    lemma_bitstamp_schema();
    assert(top_of(none4[2], n) =~= Seq::<PairV>::empty());
    assert(top_of(none4[3], n) =~= Seq::<PairV>::empty());
    lemma_raw_members(t, p8 + 1, true, ds, none4, n, 2, 3);
}

/// Whether `serde_json` accepts, as a value, the integer written from `i` on.
pub open spec fn uint_accepted(t: Seq<char>, i: int) -> bool {
    let p = skip_ws(t, i);
    crate::json::json_number_accepted(t.subrange(p, uint_end(t, p)))
}

/// The members of an object from `i` on are written plainly: each key is
/// written without escapes; `serde_json` accepts the text of each integer field
/// of the schema `s` as a value, and reads the value of each key that names no
/// field as a `serde_json::Value` (the strict check).
pub open spec fn plain_members(t: Seq<char>, i: int, first: bool, s: Seq<(Seq<char>, FieldKind)>) -> bool
    decreases t.len() - i,
{
    match map_step(t, i, first) {
        SeqStep::Elem { at } => match plain_str_end(t, at + 1) {
            None => false,
            Some(ke) => {
                let c = skip_ws(t, ke);
                let idx = field_index(s, t.subrange(at + 1, ke - 1), 0);
                if c < ke || c >= t.len() || t[c] != ':' {
                    false
                } else if !(0 <= idx < s.len()) {
                    match value_end(t, c + 1, true) {
                        Some(e) => i < e <= t.len() ==> plain_members(t, e, false, s),
                        None => false,
                    }
                } else {
                    match field_at(t, c + 1, s[idx].1, 0) {
                        Some((v, e)) => {
                            &&& s[idx].1 == FieldKind::Uint ==> uint_accepted(t, c + 1)
                            &&& i < e <= t.len() ==> plain_members(t, e, false, s)
                        },
                        None => true,
                    }
                }
            },
        },
        _ => true,
    }
}

/// A ladder read in full is also read by the partial reading.
proof fn lemma_top_n_elems_some(t: Seq<char>, i: int, first: bool, n: nat, acc: Seq<PairV>)
    requires
        ladder_elems(t, i, first, acc) is Some,
    ensures
        top_n_elems(t, i, first, n, acc.take(min_len(n, acc.len()) as int)) is Some,
    decreases t.len() - i,
{
    let acc2 = acc.take(min_len(n, acc.len()) as int);
    match seq_step(t, i, first) {
        SeqStep::Elem { at } => {
            let (pv, e) = pair_at(t, at)->0;
            let next = acc.push(pv);
            if acc2.len() < n {
                assert(acc2 =~= acc);
                assert(next.take(min_len(n, next.len()) as int) =~= next);
            } else {
                lemma_pair_value_end(t, at);
                assert(next.take(min_len(n, next.len()) as int) =~= acc2);
            }
            lemma_top_n_elems_some(t, e, false, n, next);
        },
        _ => {},
    }
}

/// An integer (whose text `serde_json` accepts) or a string field is a JSON
/// value under the strict check, ending where the field ends.
proof fn lemma_field_strict_value(t: Seq<char>, i: int, kind: FieldKind)
    requires
        kind == FieldKind::Uint || kind == FieldKind::Text,
        field_at(t, i, kind, 0) is Some,
        kind == FieldKind::Uint ==> uint_accepted(t, i),
    ensures
        value_end(t, i, true) == field_end(field_at(t, i, kind, 0)),
{
    let p = skip_ws(t, i);
    lemma_skip_ws(t, i);
    if kind == FieldKind::Uint {
        crate::decimal::lemma_digit_run_bound(t, p);
        let k = uint_end(t, p);
        assert(number_end(t, p) == Some(k));
        assert(scalar_end(t, p, true) == Some(k));
        assert(scan(t, k, Seq::<char>::empty(), ScanMode::After, true) == Some(k));
    } else {
        lemma_parse_str_end(t, p + 1);
        let e = str_end(parse_str(t, p + 1))->0;
        assert(scalar_end(t, p, true) == Some(e));
        assert(scan(t, e, Seq::<char>::empty(), ScanMode::After, true) == Some(e));
    }
}

proof fn lemma_raw_members_some(
    t: Seq<char>,
    i: int,
    first: bool,
    s: Seq<(Seq<char>, FieldKind)>,
    vals: Seq<Option<FieldVal>>,
    n: nat,
    bi: int,
    ai: int,
)
    requires
        book_like(s, bi, ai),
        vals.len() == s.len(),
        record_map(t, i, first, s, 0, vals) is Some,
        plain_members(t, i, first, s),
    ensures
        raw_members(t, i, first, n, top_of(vals[bi], n), top_of(vals[ai], n)) is Some,
    decreases t.len() - i,
{
    match map_step(t, i, first) {
        SeqStep::Elem { at } => {
            lemma_plain_parse(t, at + 1);
            let ke = plain_str_end(t, at + 1)->0;
            let key = t.subrange(at + 1, ke - 1);
            let c = skip_ws(t, ke);
            let idx = field_index(s, key, 0);
            lemma_field_index(s, key, 0);
            if key == bids_word() {
                assert(idx == bi);
                let (v, e) = ladder_at(t, c + 1)->0;
                let p = skip_ws(t, c + 1);
                let empty = Seq::<PairV>::empty();
                assert(empty.take(min_len(n, empty.len()) as int) =~= empty);
                lemma_top_n_elems_some(t, p + 1, true, n, empty);
                lemma_top_n_array(t, c + 1, n);
                let vals2 = vals.update(bi, Some(FieldVal::Ladder(v)));
                assert(top_of(vals2[bi], n) == v.take(min_len(n, v.len()) as int));
                assert(vals2[ai] == vals[ai]);
                lemma_raw_members_some(t, e, false, s, vals2, n, bi, ai);
            } else if key == asks_word() {
                assert(idx == ai);
                let (v, e) = ladder_at(t, c + 1)->0;
                let p = skip_ws(t, c + 1);
                let empty = Seq::<PairV>::empty();
                assert(empty.take(min_len(n, empty.len()) as int) =~= empty);
                lemma_top_n_elems_some(t, p + 1, true, n, empty);
                lemma_top_n_array(t, c + 1, n);
                let vals2 = vals.update(ai, Some(FieldVal::Ladder(v)));
                assert(top_of(vals2[ai], n) == v.take(min_len(n, v.len()) as int));
                assert(vals2[bi] == vals[bi]);
                lemma_raw_members_some(t, e, false, s, vals2, n, bi, ai);
            } else if 0 <= idx < s.len() {
                assert(idx != bi && idx != ai);
                assert(s[idx].1 == FieldKind::Uint || s[idx].1 == FieldKind::Text);
                lemma_field_strict_value(t, c + 1, s[idx].1);
                let (v, e) = field_at(t, c + 1, s[idx].1, 0)->0;
                let vals2 = vals.update(idx, Some(v));
                assert(vals2[bi] == vals[bi]);
                assert(vals2[ai] == vals[ai]);
                lemma_raw_members_some(t, e, false, s, vals2, n, bi, ai);
            } else {
                lemma_scan_strict_loose(t, c + 1, Seq::empty(), ScanMode::Value);
                let e = value_end(t, c + 1, true)->0;
                lemma_raw_members_some(t, e, false, s, vals, n, bi, ai);
            }
        },
        _ => {},
    }
}

proof fn lemma_record_read_partially(t: Seq<char>, s: Seq<(Seq<char>, FieldKind)>, n: nat, bi: int, ai: int)
    requires
        book_like(s, bi, ai),
        record_json(t, s, 0) is Some,
        skip_ws(t, 0) < t.len() && t[skip_ws(t, 0)] == '{',
        plain_members(t, skip_ws(t, 0) + 1, true, s),
    ensures
        raw_top_n(t, n) is Some,
{
    let p = skip_ws(t, 0);
    let vals = Seq::new(s.len(), |k: int| None::<FieldVal>);
    assert(top_of(vals[bi], n) =~= Seq::<PairV>::empty());
    assert(top_of(vals[ai], n) =~= Seq::<PairV>::empty());
    lemma_raw_members_some(t, p + 1, true, s, vals, n, bi, ai);
}

/// The partial reading succeeds on every Binance depth record that the complete
/// reading reads, written as one object whose keys are written without escapes,
/// whose `lastUpdateId` text `serde_json` accepts as a value, and whose other
/// keys hold values that `serde_json::Value` reads: it gives the first `n` bids
/// and asks of the record.
pub proof fn law_partial_reading_succeeds_binance(t: Seq<char>, n: nat)
    requires
        <crate::binance::OrderBook as crate::data_handler::JsonBook>::json_ladders(t) is Some,
        skip_ws(t, 0) < t.len() && t[skip_ws(t, 0)] == '{',
        plain_members(t, skip_ws(t, 0) + 1, true, crate::binance::book_schema()),
    ensures
        raw_top_n(t, n) == top_levels(
            <crate::binance::OrderBook as crate::data_handler::JsonBook>::json_ladders(t),
            n,
        ),
{
    lemma_binance_schema();
    lemma_record_read_partially(t, crate::binance::book_schema(), n, 1, 2);
    law_partial_reading_agrees_binance(t, n);
}

/// The partial reading succeeds on every Bitstamp order book data record that
/// the complete reading reads, written as one object whose keys are written
/// without escapes and whose other keys hold values that `serde_json::Value`
/// reads: it gives the first `n` bids and asks of the record.
pub proof fn law_partial_reading_succeeds_bitstamp(t: Seq<char>, n: nat)
    requires
        <crate::bitstamp::OrderBookData as crate::data_handler::JsonBook>::json_ladders(t) is Some,
        skip_ws(t, 0) < t.len() && t[skip_ws(t, 0)] == '{',
        plain_members(t, skip_ws(t, 0) + 1, true, crate::book_json::data_schema()),
    ensures
        raw_top_n(t, n) == top_levels(
            <crate::bitstamp::OrderBookData as crate::data_handler::JsonBook>::json_ladders(t),
            n,
        ),
{
    lemma_bitstamp_schema();
    lemma_record_read_partially(t, crate::book_json::data_schema(), n, 2, 3);
    law_partial_reading_agrees_bitstamp(t, n);
}

/// The partial reading succeeds on the order book data of every Bitstamp data
/// message that the complete reading reads, where the data is written as one
/// object whose keys are written without escapes and whose other keys hold
/// values that `serde_json::Value` reads: it gives the first `n` bids and asks
/// of the message's book.
pub proof fn law_partial_reading_succeeds_bitstamp_message(t: Seq<char>, n: nat)
    requires
        crate::bitstamp::data_prefix().is_prefix_of(t),
        <crate::bitstamp::OrderBook as crate::data_handler::JsonBook>::json_ladders(t) is Some,
        skip_ws(t, 8) < t.len() && t[skip_ws(t, 8)] == '{',
        plain_members(t, skip_ws(t, 8) + 1, true, crate::book_json::data_schema()),
    ensures
        raw_top_n(t.skip(8), n) == top_levels(
            <crate::bitstamp::OrderBook as crate::data_handler::JsonBook>::json_ladders(t),
            n,
        ),
{
    let ds = crate::book_json::data_schema();
    lemma_data_message_fields(t);
    crate::text_shift::lemma_shift_raw_top_n(t, 8, n);
    lemma_skip_ws(t, 8);
    let p8 = skip_ws(t, 8);
    let none4 = Seq::new(ds.len(), |k: int| None::<FieldVal>);
    assert(record_at(t, 8, ds, 0) == record_map(t, p8 + 1, true, ds, 0, none4));
    lemma_bitstamp_schema();
    assert(top_of(none4[2], n) =~= Seq::<PairV>::empty());
    assert(top_of(none4[3], n) =~= Seq::<PairV>::empty());
    lemma_raw_members_some(t, p8 + 1, true, ds, none4, n, 2, 3);
    law_partial_reading_agrees_bitstamp_message(t, n);
}

} // verus!
