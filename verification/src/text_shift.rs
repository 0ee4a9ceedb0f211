//! Reading a text from position `i + k` is reading the text with its first `k`
//! characters dropped from position `i`: the same values, positions moved by `k`.
use vstd::prelude::*;
use crate::json::{
    skip_ws, parse_str, parse_escape, skip_str, skip_escape, plain_str_end, number_end, hex4,
    literal_at, scalar_end, scan, value_end, ScanMode,
};
use crate::decimal::lemma_digit_run_shift;
use crate::book_json::{
    PairV, SeqStep, seq_step, map_step, pair_at, top_n_elems, top_n_array, raw_members, raw_top_n,
    bids_word, asks_word,
};

verus! {

pub open spec fn shift_end(r: Option<int>, k: int) -> Option<int> {
    match r {
        Some(e) => Some(e - k),
        None => None,
    }
}

pub open spec fn shift_read<A>(r: Option<(A, int)>, k: int) -> Option<(A, int)> {
    match r {
        Some((a, e)) => Some((a, e - k)),
        None => None,
    }
}

pub open spec fn shift_step(s: SeqStep, k: int) -> SeqStep {
    match s {
        SeqStep::Error => SeqStep::Error,
        SeqStep::End { after } => SeqStep::End { after: after - k },
        SeqStep::Elem { at } => SeqStep::Elem { at: at - k },
    }
}

pub(crate) proof fn lemma_skip_ws(t: Seq<char>, i: int)
    requires
        0 <= i,
    ensures
        i <= skip_ws(t, i),
        skip_ws(t, skip_ws(t, i)) == skip_ws(t, i),
        skip_ws(t, i) < t.len() ==> !crate::json::is_ws(t[skip_ws(t, i)]),
    decreases t.len() - i,
{
    if 0 <= i < t.len() && crate::json::is_ws(t[i]) {
        lemma_skip_ws(t, i + 1);
    }
}

/// A number ends after its start and within the text.
pub(crate) proof fn lemma_number_end_bound(t: Seq<char>, i: int)
    requires
        0 <= i,
        number_end(t, i) is Some,
    ensures
        i < number_end(t, i)->0 <= t.len(),
{
    let j = if i < t.len() && t[i] == '-' {
        i + 1
    } else {
        i
    };
    crate::decimal::lemma_digit_run_bound(t, j);
    let kk = if t[j] == '0' {
        j + 1
    } else {
        j + crate::decimal::digit_run(t, j)
    };
    if kk + 1 <= t.len() {
        crate::decimal::lemma_digit_run_bound(t, kk + 1);
    }
    let k2 = if kk < t.len() && t[kk] == '.' {
        kk + 1 + crate::decimal::digit_run(t, kk + 1)
    } else {
        kk
    };
    if k2 + 1 <= t.len() {
        crate::decimal::lemma_digit_run_bound(t, k2 + 1);
    }
    if k2 + 2 <= t.len() {
        crate::decimal::lemma_digit_run_bound(t, k2 + 2);
    }
}

pub(crate) proof fn lemma_shift_skip_ws(t: Seq<char>, k: int, i: int)
    requires
        0 <= k <= t.len(),
        0 <= i,
    ensures
        skip_ws(t.skip(k), i) == skip_ws(t, i + k) - k,
    decreases t.len() - k - i,
{
    if i + k < t.len() {
        lemma_shift_skip_ws(t, k, i + 1);
    }
}

pub(crate) proof fn lemma_shift_plain_str_end(t: Seq<char>, k: int, i: int)
    requires
        0 <= k <= t.len(),
        0 <= i,
    ensures
        plain_str_end(t.skip(k), i) == shift_end(plain_str_end(t, i + k), k),
    decreases t.len() - k - i,
{
    if i + k < t.len() {
        lemma_shift_plain_str_end(t, k, i + 1);
    }
}

proof fn lemma_shift_hex4(t: Seq<char>, k: int, i: int)
    requires
        0 <= k <= t.len(),
        0 <= i,
    ensures
        hex4(t.skip(k), i) == hex4(t, i + k),
{
}

#[verifier::rlimit(40)]
proof fn lemma_shift_parse_escape(t: Seq<char>, k: int, i: int)
    requires
        0 <= k <= t.len(),
        0 <= i,
    ensures
        parse_escape(t.skip(k), i) == shift_read(parse_escape(t, i + k), k),
{
    let s = t.skip(k);
    if i < s.len() {
        assert(s[i] == t[i + k]);
        if s[i] == 'u' {
            lemma_shift_hex4(t, k, i + 1);
            lemma_shift_hex4(t, k, i + 7);
            if i + 6 < s.len() {
                assert(s[i + 5] == t[i + k + 5]);
                assert(s[i + 6] == t[i + k + 6]);
            }
        }
    }
}

pub(crate) proof fn lemma_shift_parse_str(t: Seq<char>, k: int, i: int)
    requires
        0 <= k <= t.len(),
        0 <= i,
    ensures
        parse_str(t.skip(k), i) == shift_read(parse_str(t, i + k), k),
    decreases t.len() - k - i,
{
    let s = t.skip(k);
    if i + k < t.len() {
        if t[i + k] == '"' {
        } else if t[i + k] == '\\' {
            lemma_shift_parse_escape(t, k, i + 1);
            match parse_escape(t, i + k + 1) {
                Some((ch, j)) => {
                    if j >= k {
                        lemma_shift_parse_str(t, k, j - k);
                    }
                },
                None => {},
            }
        } else {
            lemma_shift_parse_str(t, k, i + 1);
        }
    }
}

proof fn lemma_shift_skip_str(t: Seq<char>, k: int, i: int)
    requires
        0 <= k <= t.len(),
        0 <= i,
    ensures
        skip_str(t.skip(k), i) == shift_end(skip_str(t, i + k), k),
    decreases t.len() - k - i,
{
    if i + k < t.len() {
        if t[i + k] == '"' {
        } else if t[i + k] == '\\' {
            lemma_shift_hex4(t, k, i + 2);
            match skip_escape(t, i + k + 1) {
                Some(j) => {
                    lemma_shift_skip_str(t, k, j - k);
                },
                None => {},
            }
        } else {
            lemma_shift_skip_str(t, k, i + 1);
        }
    }
}

proof fn lemma_shift_number_end(t: Seq<char>, k: int, i: int)
    requires
        0 <= k <= t.len(),
        0 <= i,
    ensures
        number_end(t.skip(k), i) == shift_end(number_end(t, i + k), k),
{
    let s = t.skip(k);
    let j = if i < s.len() && s[i] == '-' {
        i + 1
    } else {
        i
    };
    lemma_digit_run_shift(t, k, j);
    let kk = if j < s.len() && s[j] == '0' {
        j + 1
    } else {
        j + crate::decimal::digit_run(s, j)
    };
    lemma_digit_run_shift(t, k, kk + 1);
    let k2 = if kk < s.len() && s[kk] == '.' {
        kk + 1 + crate::decimal::digit_run(s, kk + 1)
    } else {
        kk
    };
    lemma_digit_run_shift(t, k, k2 + 1);
    lemma_digit_run_shift(t, k, k2 + 2);
}

proof fn lemma_shift_literal_at(t: Seq<char>, k: int, p: int, w: Seq<char>)
    requires
        0 <= k <= t.len(),
        0 <= p,
    ensures
        literal_at(t.skip(k), p, w) == literal_at(t, p + k, w),
{
    let s = t.skip(k);
    if p + w.len() <= s.len() {
        assert(s.subrange(p, p + w.len() as int) =~= t.subrange(p + k, p + k + w.len() as int));
    }
}

proof fn lemma_shift_scalar_end(t: Seq<char>, k: int, p: int, strict: bool)
    requires
        0 <= k <= t.len(),
        0 <= p,
    ensures
        scalar_end(t.skip(k), p, strict) == shift_end(scalar_end(t, p + k, strict), k),
{
    let s = t.skip(k);
    if p < s.len() {
        lemma_shift_literal_at(t, k, p, seq!['n', 'u', 'l', 'l']);
        lemma_shift_literal_at(t, k, p, seq!['t', 'r', 'u', 'e']);
        lemma_shift_literal_at(t, k, p, seq!['f', 'a', 'l', 's', 'e']);
        lemma_shift_number_end(t, k, p);
        match number_end(t, p + k) {
            Some(e) => {
                lemma_number_end_bound(t, p + k);
                assert(s.subrange(p, e - k) =~= t.subrange(p + k, e));
            },
            None => {},
        }
        lemma_shift_parse_str(t, k, p + 1);
        lemma_shift_skip_str(t, k, p + 1);
    }
}

pub(crate) proof fn lemma_shift_scan(
    t: Seq<char>,
    k: int,
    pos: int,
    stack: Seq<char>,
    mode: ScanMode,
    strict: bool,
)
    requires
        0 <= k <= t.len(),
        0 <= pos,
    ensures
        scan(t.skip(k), pos, stack, mode, strict) == shift_end(scan(t, pos + k, stack, mode, strict), k),
    decreases t.len() - k - pos, crate::json::scan_rank(mode),
{
    let s = t.skip(k);
    if pos <= s.len() {
        lemma_shift_skip_ws(t, k, pos);
        lemma_skip_ws(s, pos);
        let q = skip_ws(s, pos);
        match mode {
            ScanMode::Value => {
                if q < s.len() {
                    if s[q] == '[' || s[q] == '{' {
                        lemma_shift_scan(t, k, q + 1, stack.push(s[q]), ScanMode::Opened, strict);
                    } else {
                        lemma_shift_scalar_end(t, k, q, strict);
                        match scalar_end(s, q, strict) {
                            Some(e) => {
                                if pos < e <= s.len() {
                                    lemma_shift_scan(t, k, e, stack, ScanMode::After, strict);
                                }
                            },
                            None => {},
                        }
                    }
                }
            },
            ScanMode::Opened => {
                if q < s.len() && stack.len() > 0 {
                    lemma_shift_scan(t, k, q + 1, stack.drop_last(), ScanMode::After, strict);
                    if q >= pos {
                        lemma_shift_scan(t, k, q, stack, ScanMode::Value, strict);
                        lemma_shift_scan(t, k, q, stack, ScanMode::Key, strict);
                    }
                }
            },
            ScanMode::After => {
                if stack.len() > 0 && q < s.len() {
                    lemma_shift_scan(t, k, q + 1, stack, ScanMode::Value, strict);
                    lemma_shift_scan(t, k, q + 1, stack, ScanMode::Key, strict);
                    lemma_shift_scan(t, k, q + 1, stack.drop_last(), ScanMode::After, strict);
                }
            },
            ScanMode::Key => {
                if q < s.len() {
                    lemma_shift_parse_str(t, k, q + 1);
                    lemma_shift_skip_str(t, k, q + 1);
                    let e = if strict {
                        match parse_str(s, q + 1) {
                            Some((_, e)) => Some(e),
                            None => None,
                        }
                    } else {
                        skip_str(s, q + 1)
                    };
                    match e {
                        Some(e) => {
                            if e >= 0 {
                                lemma_shift_skip_ws(t, k, e);
                                let c = skip_ws(s, e);
                                if pos < e && e <= c && c < s.len() {
                                    lemma_shift_scan(t, k, c + 1, stack, ScanMode::Value, strict);
                                }
                            }
                        },
                        None => {},
                    }
                }
            },
        }
    }
}

proof fn lemma_shift_seq_step(t: Seq<char>, k: int, i: int, first: bool)
    requires
        0 <= k <= t.len(),
        0 <= i,
    ensures
        seq_step(t.skip(k), i, first) == shift_step(seq_step(t, i + k, first), k),
        map_step(t.skip(k), i, first) == shift_step(map_step(t, i + k, first), k),
{
    let s = t.skip(k);
    lemma_shift_skip_ws(t, k, i);
    lemma_skip_ws(s, i);
    let q = skip_ws(s, i);
    if q < s.len() {
        assert(s[q] == t[q + k]);
        lemma_shift_skip_ws(t, k, q + 1);
        lemma_skip_ws(s, q + 1);
        let q2 = skip_ws(s, q + 1);
        if q2 < s.len() {
            assert(s[q2] == t[q2 + k]);
        }
    }
}

proof fn lemma_shift_pair_at(t: Seq<char>, k: int, i: int)
    requires
        0 <= k <= t.len(),
        0 <= i,
    ensures
        pair_at(t.skip(k), i) == shift_read(pair_at(t, i + k), k),
{
    let s = t.skip(k);
    lemma_shift_skip_ws(t, k, i);
    lemma_skip_ws(s, i);
    let p = skip_ws(s, i);
    if p >= s.len() || s[p] != '[' {
        if p < s.len() {
            assert(s[p] == t[p + k]);
        }
        return;
    }
    assert(s[p] == t[p + k]);
    lemma_shift_skip_ws(t, k, p + 1);
    lemma_skip_ws(s, p + 1);
    let q = skip_ws(s, p + 1);
    if q >= s.len() || s[q] != '"' {
        if q < s.len() {
            assert(s[q] == t[q + k]);
        }
        return;
    }
    assert(s[q] == t[q + k]);
    lemma_shift_parse_str(t, k, q + 1);
    if parse_str(s, q + 1) is None {
        return;
    }
    let (a, e1) = parse_str(s, q + 1)->0;
    assert(parse_str(t, q + 1 + k) == Some((a, e1 + k)));
    crate::reader_laws::lemma_parse_str_bound(s, q + 1);
    lemma_shift_skip_ws(t, k, e1);
    lemma_skip_ws(s, e1);
    let r = skip_ws(s, e1);
    if r >= s.len() || s[r] != ',' {
        if r < s.len() {
            assert(s[r] == t[r + k]);
        }
        return;
    }
    assert(s[r] == t[r + k]);
    lemma_shift_skip_ws(t, k, r + 1);
    lemma_skip_ws(s, r + 1);
    let r2 = skip_ws(s, r + 1);
    if r2 >= s.len() || s[r2] != '"' {
        if r2 < s.len() {
            assert(s[r2] == t[r2 + k]);
        }
        return;
    }
    assert(s[r2] == t[r2 + k]);
    lemma_shift_parse_str(t, k, r2 + 1);
    if parse_str(s, r2 + 1) is None {
        return;
    }
    let (b, e2) = parse_str(s, r2 + 1)->0;
    assert(parse_str(t, r2 + 1 + k) == Some((b, e2 + k)));
    crate::reader_laws::lemma_parse_str_bound(s, r2 + 1);
    lemma_shift_skip_ws(t, k, e2);
    lemma_skip_ws(s, e2);
    let w = skip_ws(s, e2);
    if w < s.len() {
        assert(s[w] == t[w + k]);
    }
}

pub(crate) proof fn lemma_step_advances(t: Seq<char>, i: int, first: bool)
    requires
        0 <= i,
    ensures
        seq_step(t, i, first) matches SeqStep::Elem { at } ==> i <= at < t.len(),
        seq_step(t, i, first) matches SeqStep::End { after } ==> i < after <= t.len(),
        map_step(t, i, first) matches SeqStep::Elem { at } ==> i <= at < t.len(),
        map_step(t, i, first) matches SeqStep::End { after } ==> i < after <= t.len(),
{
    lemma_skip_ws(t, i);
    let q = skip_ws(t, i);
    lemma_skip_ws(t, q + 1);
}

proof fn lemma_shift_top_n_elems(t: Seq<char>, k: int, i: int, first: bool, n: nat, acc: Seq<PairV>)
    requires
        0 <= k <= t.len(),
        0 <= i,
    ensures
        top_n_elems(t.skip(k), i, first, n, acc) == shift_read(top_n_elems(t, i + k, first, n, acc), k),
    decreases t.len() - k - i,
{
    let s = t.skip(k);
    lemma_shift_seq_step(t, k, i, first);
    lemma_step_advances(s, i, first);
    match seq_step(s, i, first) {
        SeqStep::Error => {
            assert(seq_step(t, i + k, first) == SeqStep::Error);
        },
        SeqStep::End { after } => {
            assert(seq_step(t, i + k, first) == SeqStep::End { after: after + k });
        },
        SeqStep::Elem { at } => {
            assert(seq_step(t, i + k, first) == SeqStep::Elem { at: at + k });
            if acc.len() < n {
                lemma_shift_pair_at(t, k, at);
                match pair_at(s, at) {
                    None => {
                        assert(pair_at(t, at + k) is None);
                    },
                    Some((pv, e)) => {
                        assert(pair_at(t, at + k) == Some((pv, e + k)));
                        if i < e <= s.len() {
                            lemma_shift_top_n_elems(t, k, e, false, n, acc.push(pv));
                            assert(top_n_elems(s, i, first, n, acc) == top_n_elems(s, e, false, n, acc.push(pv)));
                            assert(top_n_elems(t, i + k, first, n, acc) == top_n_elems(
                                t,
                                e + k,
                                false,
                                n,
                                acc.push(pv),
                            ));
                        }
                    },
                }
            } else {
                lemma_shift_scan(t, k, at, Seq::empty(), ScanMode::Value, false);
                match value_end(s, at, false) {
                    None => {
                        assert(value_end(t, at + k, false) is None);
                    },
                    Some(e) => {
                        assert(value_end(t, at + k, false) == Some(e + k));
                        if i < e <= s.len() {
                            lemma_shift_top_n_elems(t, k, e, false, n, acc);
                            assert(top_n_elems(s, i, first, n, acc) == top_n_elems(s, e, false, n, acc));
                            assert(top_n_elems(t, i + k, first, n, acc) == top_n_elems(t, e + k, false, n, acc));
                        }
                    },
                }
            }
        },
    }
}

proof fn lemma_shift_top_n_array(t: Seq<char>, k: int, i: int, n: nat)
    requires
        0 <= k <= t.len(),
        0 <= i,
    ensures
        top_n_array(t.skip(k), i, n) == shift_read(top_n_array(t, i + k, n), k),
{
    let s = t.skip(k);
    lemma_shift_skip_ws(t, k, i);
    lemma_skip_ws(s, i);
    let p = skip_ws(s, i);
    if p < s.len() {
        lemma_shift_top_n_elems(t, k, p + 1, true, n, Seq::empty());
    }
}

/// The partial reading of the members after the first one.
#[verifier::opaque]
spec fn raw_rest(t: Seq<char>, i: int, n: nat, bids: Seq<PairV>, asks: Seq<PairV>) -> Option<
    (Seq<PairV>, Seq<PairV>),
> {
    raw_members(t, i, false, n, bids, asks)
}

/// What the partial reading does after the key `key` of a member, whose colon
/// stands at `c`.
spec fn raw_after_key(
    t: Seq<char>,
    i: int,
    n: nat,
    bids: Seq<PairV>,
    asks: Seq<PairV>,
    key: Seq<char>,
    c: int,
) -> Option<(Seq<PairV>, Seq<PairV>)> {
    if key == bids_word() {
        match top_n_array(t, c + 1, n) {
            Some((l, e)) => if i < e <= t.len() {
                raw_rest(t, e, n, l, asks)
            } else {
                None
            },
            None => None,
        }
    } else if key == asks_word() {
        match top_n_array(t, c + 1, n) {
            Some((l, e)) => if i < e <= t.len() {
                raw_rest(t, e, n, bids, l)
            } else {
                None
            },
            None => None,
        }
    } else {
        match value_end(t, c + 1, true) {
            Some(e) => if i < e <= t.len() {
                raw_rest(t, e, n, bids, asks)
            } else {
                None
            },
            None => None,
        }
    }
}

proof fn lemma_raw_members_unfold(t: Seq<char>, i: int, first: bool, n: nat, bids: Seq<PairV>, asks: Seq<PairV>)
    requires
        map_step(t, i, first) is Elem,
        plain_str_end(t, map_step(t, i, first)->at + 1) is Some,
    ensures
        ({
            let at = map_step(t, i, first)->at;
            let ke = plain_str_end(t, at + 1)->0;
            let c = skip_ws(t, ke);
            raw_members(t, i, first, n, bids, asks) == if c < ke || c >= t.len() || t[c] != ':' {
                None
            } else {
                raw_after_key(t, i, n, bids, asks, t.subrange(at + 1, ke - 1), c)
            }
        }),
{
    reveal(raw_rest);
}

proof fn lemma_shift_raw_rest(t: Seq<char>, k: int, i: int, n: nat, bids: Seq<PairV>, asks: Seq<PairV>)
    requires
        0 <= k <= t.len(),
        0 <= i,
    ensures
        raw_rest(t.skip(k), i, n, bids, asks) == raw_rest(t, i + k, n, bids, asks),
    decreases t.len() - k - i, 3int,
{
    reveal(raw_rest);
    lemma_shift_raw_members(t, k, i, false, n, bids, asks);
}

proof fn lemma_shift_after_ladder_key(
    t: Seq<char>,
    k: int,
    i: int,
    n: nat,
    bids: Seq<PairV>,
    asks: Seq<PairV>,
    key: Seq<char>,
    c: int,
)
    requires
        0 <= k <= t.len(),
        0 <= i <= c,
        key == bids_word() || key == asks_word(),
    ensures
        raw_after_key(t.skip(k), i, n, bids, asks, key, c) == raw_after_key(t, i + k, n, bids, asks, key, c + k),
    decreases t.len() - k - i, 1int,
{
    let s = t.skip(k);
    lemma_shift_top_n_array(t, k, c + 1, n);
    match top_n_array(s, c + 1, n) {
        Some((l, e)) => {
            assert(top_n_array(t, c + 1 + k, n) == Some((l, e + k)));
            if i < e <= s.len() {
                lemma_shift_raw_rest(t, k, e, n, l, asks);
                lemma_shift_raw_rest(t, k, e, n, bids, l);
            }
        },
        None => {},
    }
}

proof fn lemma_shift_after_other_key(
    t: Seq<char>,
    k: int,
    i: int,
    n: nat,
    bids: Seq<PairV>,
    asks: Seq<PairV>,
    key: Seq<char>,
    c: int,
)
    requires
        0 <= k <= t.len(),
        0 <= i <= c,
        key != bids_word(),
        key != asks_word(),
    ensures
        raw_after_key(t.skip(k), i, n, bids, asks, key, c) == raw_after_key(t, i + k, n, bids, asks, key, c + k),
    decreases t.len() - k - i, 1int,
{
    let s = t.skip(k);
    lemma_shift_scan(t, k, c + 1, Seq::empty(), ScanMode::Value, true);
    match value_end(s, c + 1, true) {
        Some(e) => {
            assert(value_end(t, c + 1 + k, true) == Some(e + k));
            if i < e <= s.len() {
                lemma_shift_raw_rest(t, k, e, n, bids, asks);
            }
        },
        None => {},
    }
}

pub(crate) proof fn lemma_shift_raw_members(
    t: Seq<char>,
    k: int,
    i: int,
    first: bool,
    n: nat,
    bids: Seq<PairV>,
    asks: Seq<PairV>,
)
    requires
        0 <= k <= t.len(),
        0 <= i,
    ensures
        raw_members(t.skip(k), i, first, n, bids, asks) == raw_members(t, i + k, first, n, bids, asks),
    decreases t.len() - k - i, 2int,
{
    let s = t.skip(k);
    lemma_shift_seq_step(t, k, i, first);
    lemma_step_advances(s, i, first);
    match map_step(s, i, first) {
        SeqStep::Error => {
            assert(map_step(t, i + k, first) == SeqStep::Error);
        },
        SeqStep::End { after } => {
            assert(map_step(t, i + k, first) == SeqStep::End { after: after + k });
        },
        SeqStep::Elem { at } => {
            assert(map_step(t, i + k, first) == SeqStep::Elem { at: at + k });
            lemma_shift_plain_str_end(t, k, at + 1);
            if plain_str_end(s, at + 1) is None {
                assert(plain_str_end(t, at + 1 + k) is None);
                return;
            }
            let ke = plain_str_end(s, at + 1)->0;
            assert(plain_str_end(t, at + 1 + k) == Some(ke + k));
            crate::reader_laws::lemma_plain_end_bound(s, at + 1);
            let key = s.subrange(at + 1, ke - 1);
            assert(key =~= t.subrange(at + 1 + k, ke + k - 1));
            lemma_shift_skip_ws(t, k, ke);
            lemma_skip_ws(s, ke);
            let c = skip_ws(s, ke);
            if c < s.len() {
                assert(s[c] == t[c + k]);
            }
            lemma_raw_members_unfold(s, i, first, n, bids, asks);
            lemma_raw_members_unfold(t, i + k, first, n, bids, asks);
            if c < s.len() && s[c] == ':' {
                if key == bids_word() || key == asks_word() {
                    lemma_shift_after_ladder_key(t, k, i, n, bids, asks, key, c);
                } else {
                    lemma_shift_after_other_key(t, k, i, n, bids, asks, key, c);
                }
            }
        },
    }
}

/// The partial reading of the text after its first `k` characters.
pub(crate) proof fn lemma_shift_raw_top_n(t: Seq<char>, k: int, n: nat)
    requires
        0 <= k <= t.len(),
    ensures
        raw_top_n(t.skip(k), n) == ({
            let p = skip_ws(t, k);
            if p >= t.len() || t[p] != '{' {
                None
            } else {
                raw_members(t, p + 1, true, n, Seq::empty(), Seq::empty())
            }
        }),
{
    let s = t.skip(k);
    lemma_shift_skip_ws(t, k, 0);
    lemma_skip_ws(s, 0);
    let p = skip_ws(s, 0);
    if p < s.len() {
        lemma_shift_raw_members(t, k, p + 1, true, n, Seq::empty(), Seq::empty());
    }
}

} // verus!
