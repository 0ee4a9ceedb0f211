//! Reading a text from position `i` looks only at the characters up to the end
//! of what it reads (and, for whitespace and numbers, at the character that
//! ends them): two texts that agree below `m` read the same there, as long as
//! the reading ends before `m`.
use vstd::prelude::*;
use crate::json::{
    skip_ws, is_ws, parse_str, parse_escape, skip_str, skip_escape, plain_str_end, number_end, hex4,
    literal_at, scalar_end, scan, ScanMode, closer,
};
use crate::decimal::{digit_run, is_digit};
use crate::text_shift::{lemma_skip_ws, lemma_number_end_bound};
use crate::reader_laws::{lemma_plain_end_bound, lemma_parse_str_bound};
use crate::book_json::{PairV, SeqStep, seq_step, map_step, pair_at, top_n_elems, top_n_array};

verus! {

/// Texts `t1` and `t2` hold the same characters below `m`.
pub open spec fn agree(t1: Seq<char>, t2: Seq<char>, m: int) -> bool {
    &&& 0 <= m <= t1.len()
    &&& m <= t2.len()
    &&& forall|j: int| #![trigger t1[j]] #![trigger t2[j]] 0 <= j < m ==> t1[j] == t2[j]
}

/// Where a reading that gives a value and a position ends.
pub open spec fn end_of<A>(r: Option<(A, int)>) -> int {
    match r {
        Some((_, e)) => e,
        None => -1,
    }
}

pub(crate) proof fn lemma_pre_skip_ws(t1: Seq<char>, t2: Seq<char>, m: int, i: int)
    requires
        agree(t1, t2, m),
        0 <= i,
        skip_ws(t1, i) < m,
    ensures
        skip_ws(t2, i) == skip_ws(t1, i),
    decreases t1.len() - i,
{
    lemma_skip_ws(t1, i);
    assert(t1[i] == t2[i]);
    if i < t1.len() && is_ws(t1[i]) {
        lemma_pre_skip_ws(t1, t2, m, i + 1);
    }
}

proof fn lemma_pre_digit_run(t1: Seq<char>, t2: Seq<char>, m: int, i: int)
    requires
        agree(t1, t2, m),
        0 <= i,
        i + digit_run(t1, i) < m,
    ensures
        digit_run(t2, i) == digit_run(t1, i),
    decreases t1.len() - i,
{
    assert(t1[i] == t2[i]);
    if i < t1.len() && is_digit(t1[i]) {
        lemma_pre_digit_run(t1, t2, m, i + 1);
    }
}

proof fn lemma_pre_number_end(t1: Seq<char>, t2: Seq<char>, m: int, i: int)
    requires
        agree(t1, t2, m),
        0 <= i,
        number_end(t1, i) is Some,
        number_end(t1, i)->0 < m,
    ensures
        number_end(t2, i) == number_end(t1, i),
{
    let e = number_end(t1, i)->0;
    lemma_number_end_bound(t1, i);
    assert(t1[i] == t2[i]);
    let j = if t1[i] == '-' {
        i + 1
    } else {
        i
    };
    assert(t1[j] == t2[j]);
    crate::decimal::lemma_digit_run_bound(t1, j);
    if t1[j] != '0' {
        lemma_pre_digit_run(t1, t2, m, j);
    }
    let k = if t1[j] == '0' {
        j + 1
    } else {
        j + digit_run(t1, j)
    };
    assert(t1[k] == t2[k]);
    let has_frac = k < t1.len() && t1[k] == '.';
    if has_frac {
        crate::decimal::lemma_digit_run_bound(t1, k + 1);
        lemma_pre_digit_run(t1, t2, m, k + 1);
    }
    let k2 = if has_frac {
        k + 1 + digit_run(t1, k + 1)
    } else {
        k
    };
    assert(t1[k2] == t2[k2]);
    if k2 < t1.len() && crate::decimal::ci(t1[k2], 'e', 'E') {
        if k2 + 1 < t1.len() {
            crate::decimal::lemma_digit_run_bound(t1, k2 + 1);
        }
        assert(t1[k2 + 1] == t2[k2 + 1]);
        let s = if k2 + 1 < t1.len() && (t1[k2 + 1] == '+' || t1[k2 + 1] == '-') {
            k2 + 2
        } else {
            k2 + 1
        };
        crate::decimal::lemma_digit_run_bound(t1, s);
        lemma_pre_digit_run(t1, t2, m, s);
    }
}

proof fn lemma_pre_hex4(t1: Seq<char>, t2: Seq<char>, m: int, i: int)
    requires
        agree(t1, t2, m),
        0 <= i,
        i + 4 <= m,
    ensures
        hex4(t2, i) == hex4(t1, i),
{
    assert(t1[i] == t2[i]);
    assert(t1[i + 1] == t2[i + 1]);
    assert(t1[i + 2] == t2[i + 2]);
    assert(t1[i + 3] == t2[i + 3]);
}

proof fn lemma_pre_parse_escape(t1: Seq<char>, t2: Seq<char>, m: int, i: int)
    requires
        agree(t1, t2, m),
        0 <= i,
        parse_escape(t1, i) is Some,
        end_of(parse_escape(t1, i)) <= m,
    ensures
        parse_escape(t2, i) == parse_escape(t1, i),
{
    assert(t1[i] == t2[i]);
    if t1[i] == 'u' {
        lemma_pre_hex4(t1, t2, m, i + 1);
        let n = hex4(t1, i + 1)->0;
        if crate::json::is_leading_surrogate(n) {
            assert(t1[i + 5] == t2[i + 5]);
            assert(t1[i + 6] == t2[i + 6]);
            lemma_pre_hex4(t1, t2, m, i + 7);
        }
    }
}

pub(crate) proof fn lemma_parse_escape_bound(t: Seq<char>, i: int)
    requires
        parse_escape(t, i) is Some,
    ensures
        0 <= i < end_of(parse_escape(t, i)) <= t.len(),
{
}

proof fn lemma_pre_parse_str(t1: Seq<char>, t2: Seq<char>, m: int, i: int)
    requires
        agree(t1, t2, m),
        0 <= i,
        parse_str(t1, i) is Some,
        end_of(parse_str(t1, i)) <= m,
    ensures
        parse_str(t2, i) == parse_str(t1, i),
    decreases t1.len() - i,
{
    lemma_parse_str_bound(t1, i);
    assert(t1[i] == t2[i]);
    if t1[i] == '"' {
    } else if t1[i] == '\\' {
        let j = end_of(parse_escape(t1, i + 1));
        lemma_parse_escape_bound(t1, i + 1);
        lemma_parse_str_bound(t1, j);
        lemma_pre_parse_escape(t1, t2, m, i + 1);
        lemma_pre_parse_str(t1, t2, m, j);
    } else {
        lemma_parse_str_bound(t1, i + 1);
        lemma_pre_parse_str(t1, t2, m, i + 1);
    }
}

proof fn lemma_skip_str_bound(t: Seq<char>, i: int)
    requires
        skip_str(t, i) is Some,
    ensures
        0 <= i < skip_str(t, i)->0 <= t.len(),
    decreases t.len() - i,
{
    if t[i] == '\\' {
        lemma_skip_str_bound(t, skip_escape(t, i + 1)->0);
    } else if t[i] != '"' {
        lemma_skip_str_bound(t, i + 1);
    }
}

proof fn lemma_pre_skip_str(t1: Seq<char>, t2: Seq<char>, m: int, i: int)
    requires
        agree(t1, t2, m),
        0 <= i,
        skip_str(t1, i) is Some,
        skip_str(t1, i)->0 <= m,
    ensures
        skip_str(t2, i) == skip_str(t1, i),
    decreases t1.len() - i,
{
    lemma_skip_str_bound(t1, i);
    assert(t1[i] == t2[i]);
    if t1[i] == '"' {
    } else if t1[i] == '\\' {
        let j = skip_escape(t1, i + 1)->0;
        lemma_skip_str_bound(t1, j);
        assert(t1[i + 1] == t2[i + 1]);
        if t1[i + 1] == 'u' {
            lemma_pre_hex4(t1, t2, m, i + 2);
        }
        assert(skip_escape(t2, i + 1) == skip_escape(t1, i + 1));
        lemma_pre_skip_str(t1, t2, m, j);
    } else {
        lemma_pre_skip_str(t1, t2, m, i + 1);
    }
}

pub(crate) proof fn lemma_pre_plain_str_end(t1: Seq<char>, t2: Seq<char>, m: int, i: int)
    requires
        agree(t1, t2, m),
        plain_str_end(t1, i) is Some,
        plain_str_end(t1, i)->0 <= m,
    ensures
        plain_str_end(t2, i) == plain_str_end(t1, i),
    decreases t1.len() - i,
{
    lemma_plain_end_bound(t1, i);
    assert(t1[i] == t2[i]);
    if t1[i] != '"' {
        lemma_pre_plain_str_end(t1, t2, m, i + 1);
    }
}

proof fn lemma_pre_literal(t1: Seq<char>, t2: Seq<char>, m: int, p: int, w: Seq<char>)
    requires
        agree(t1, t2, m),
        0 <= p,
        p + w.len() <= m,
    ensures
        literal_at(t2, p, w) == literal_at(t1, p, w),
{
    assert(t1.subrange(p, p + w.len() as int) =~= t2.subrange(p, p + w.len() as int));
}

pub(crate) proof fn lemma_scalar_end_bound(t: Seq<char>, p: int, strict: bool)
    requires
        0 <= p,
        scalar_end(t, p, strict) is Some,
    ensures
        p < scalar_end(t, p, strict)->0 <= t.len(),
{
    let c = t[p];
    if c == '-' || is_digit(c) {
        lemma_number_end_bound(t, p);
    } else if c == '"' {
        if strict {
            lemma_parse_str_bound(t, p + 1);
        } else {
            lemma_skip_str_bound(t, p + 1);
        }
    }
}

proof fn lemma_pre_scalar_end(t1: Seq<char>, t2: Seq<char>, m: int, p: int, strict: bool)
    requires
        agree(t1, t2, m),
        0 <= p,
        scalar_end(t1, p, strict) is Some,
        scalar_end(t1, p, strict)->0 < m,
    ensures
        scalar_end(t2, p, strict) == scalar_end(t1, p, strict),
{
    lemma_scalar_end_bound(t1, p, strict);
    let e = scalar_end(t1, p, strict)->0;
    assert(t1[p] == t2[p]);
    let c = t1[p];
    if c == 'n' || c == 't' {
        lemma_pre_literal(t1, t2, m, p, seq!['n', 'u', 'l', 'l']);
        lemma_pre_literal(t1, t2, m, p, seq!['t', 'r', 'u', 'e']);
    } else if c == 'f' {
        lemma_pre_literal(t1, t2, m, p, seq!['f', 'a', 'l', 's', 'e']);
    } else if c == '-' || is_digit(c) {
        lemma_pre_number_end(t1, t2, m, p);
        assert(t1.subrange(p, e) =~= t2.subrange(p, e));
    } else if strict {
        lemma_pre_parse_str(t1, t2, m, p + 1);
    } else {
        lemma_pre_skip_str(t1, t2, m, p + 1);
    }
}

/// A scan ends at or after where it starts, and after the first character it
/// reads (unless there is nothing left to read).
pub(crate) proof fn lemma_scan_ge(t: Seq<char>, pos: int, stack: Seq<char>, mode: ScanMode, strict: bool)
    requires
        0 <= pos,
        scan(t, pos, stack, mode, strict) is Some,
    ensures
        pos <= scan(t, pos, stack, mode, strict)->0 <= t.len(),
        stack.len() > 0 || mode != ScanMode::After ==> skip_ws(t, pos) < scan(
            t,
            pos,
            stack,
            mode,
            strict,
        )->0,
    decreases t.len() - pos, crate::json::scan_rank(mode),
{
    lemma_skip_ws(t, pos);
    let q = skip_ws(t, pos);
    match mode {
        ScanMode::Value => {
            if t[q] == '[' || t[q] == '{' {
                lemma_scan_ge(t, q + 1, stack.push(t[q]), ScanMode::Opened, strict);
            } else {
                let e = scalar_end(t, q, strict)->0;
                lemma_scalar_end_bound(t, q, strict);
                lemma_scan_ge(t, e, stack, ScanMode::After, strict);
            }
        },
        ScanMode::Opened => {
            if t[q] == closer(stack.last()) {
                if stack.len() != 1 {
                    lemma_scan_ge(t, q + 1, stack.drop_last(), ScanMode::After, strict);
                }
            } else {
                lemma_skip_ws(t, q);
                if stack.last() == '[' {
                    lemma_scan_ge(t, q, stack, ScanMode::Value, strict);
                } else {
                    lemma_scan_ge(t, q, stack, ScanMode::Key, strict);
                }
            }
        },
        ScanMode::After => {
            if stack.len() > 0 {
                if t[q] == ',' {
                    if stack.last() == '[' {
                        lemma_scan_ge(t, q + 1, stack, ScanMode::Value, strict);
                    } else {
                        lemma_scan_ge(t, q + 1, stack, ScanMode::Key, strict);
                    }
                } else if stack.len() != 1 {
                    lemma_scan_ge(t, q + 1, stack.drop_last(), ScanMode::After, strict);
                }
            }
        },
        ScanMode::Key => {
            let e = if strict {
                match parse_str(t, q + 1) {
                    Some((s, e)) => Some(e),
                    None => None,
                }
            } else {
                skip_str(t, q + 1)
            };
            let e = e->0;
            if strict {
                lemma_parse_str_bound(t, q + 1);
            } else {
                lemma_skip_str_bound(t, q + 1);
            }
            let c = skip_ws(t, e);
            lemma_scan_ge(t, c + 1, stack, ScanMode::Value, strict);
        },
    }
}

pub(crate) proof fn lemma_pre_scan(
    t1: Seq<char>,
    t2: Seq<char>,
    m: int,
    pos: int,
    stack: Seq<char>,
    mode: ScanMode,
    strict: bool,
)
    requires
        agree(t1, t2, m),
        0 <= pos,
        scan(t1, pos, stack, mode, strict) is Some,
        scan(t1, pos, stack, mode, strict)->0 < m,
    ensures
        scan(t2, pos, stack, mode, strict) == scan(t1, pos, stack, mode, strict),
    decreases t1.len() - pos, crate::json::scan_rank(mode),
{
    lemma_scan_ge(t1, pos, stack, mode, strict);
    lemma_skip_ws(t1, pos);
    let e = scan(t1, pos, stack, mode, strict)->0;
    let q = skip_ws(t1, pos);
    if mode == ScanMode::After && stack.len() == 0 {
        return;
    }
    lemma_pre_skip_ws(t1, t2, m, pos);
    assert(t1[q] == t2[q]);
    match mode {
        ScanMode::Value => {
            if t1[q] == '[' || t1[q] == '{' {
                lemma_pre_scan(t1, t2, m, q + 1, stack.push(t1[q]), ScanMode::Opened, strict);
            } else {
                let e1 = scalar_end(t1, q, strict)->0;
                lemma_scan_ge(t1, e1, stack, ScanMode::After, strict);
                lemma_pre_scalar_end(t1, t2, m, q, strict);
                lemma_pre_scan(t1, t2, m, e1, stack, ScanMode::After, strict);
            }
        },
        ScanMode::Opened => {
            if t1[q] == closer(stack.last()) {
                if stack.len() != 1 {
                    lemma_pre_scan(t1, t2, m, q + 1, stack.drop_last(), ScanMode::After, strict);
                }
            } else {
                if stack.last() == '[' {
                    lemma_pre_scan(t1, t2, m, q, stack, ScanMode::Value, strict);
                } else {
                    lemma_pre_scan(t1, t2, m, q, stack, ScanMode::Key, strict);
                }
            }
        },
        ScanMode::After => {
            if t1[q] == ',' {
                if stack.last() == '[' {
                    lemma_pre_scan(t1, t2, m, q + 1, stack, ScanMode::Value, strict);
                } else {
                    lemma_pre_scan(t1, t2, m, q + 1, stack, ScanMode::Key, strict);
                }
            } else if stack.len() != 1 {
                lemma_pre_scan(t1, t2, m, q + 1, stack.drop_last(), ScanMode::After, strict);
            }
        },
        ScanMode::Key => {
            let e1 = if strict {
                match parse_str(t1, q + 1) {
                    Some((s, e)) => Some(e),
                    None => None,
                }
            } else {
                skip_str(t1, q + 1)
            };
            let e1 = e1->0;
            let c = skip_ws(t1, e1);
            lemma_skip_ws(t1, e1);
            lemma_scan_ge(t1, c + 1, stack, ScanMode::Value, strict);
            if strict {
                lemma_pre_parse_str(t1, t2, m, q + 1);
            } else {
                lemma_pre_skip_str(t1, t2, m, q + 1);
            }
            lemma_pre_skip_ws(t1, t2, m, e1);
            assert(t1[c] == t2[c]);
            lemma_pre_scan(t1, t2, m, c + 1, stack, ScanMode::Value, strict);
        },
    }
}

pub(crate) proof fn lemma_pre_steps(t1: Seq<char>, t2: Seq<char>, m: int, i: int, first: bool)
    requires
        agree(t1, t2, m),
        0 <= i,
    ensures
        seq_step(t1, i, first) matches SeqStep::Elem { at } && at < m ==> seq_step(t2, i, first)
            == seq_step(t1, i, first),
        seq_step(t1, i, first) matches SeqStep::End { after } && after <= m ==> seq_step(t2, i, first)
            == seq_step(t1, i, first),
        map_step(t1, i, first) matches SeqStep::Elem { at } && at < m ==> map_step(t2, i, first)
            == map_step(t1, i, first),
        map_step(t1, i, first) matches SeqStep::End { after } && after <= m ==> map_step(t2, i, first)
            == map_step(t1, i, first),
{
    lemma_skip_ws(t1, i);
    let q = skip_ws(t1, i);
    lemma_skip_ws(t1, q + 1);
    if q < m {
        lemma_pre_skip_ws(t1, t2, m, i);
        assert(t1[q] == t2[q]);
        let q2 = skip_ws(t1, q + 1);
        if q2 < m {
            lemma_pre_skip_ws(t1, t2, m, q + 1);
            assert(t1[q2] == t2[q2]);
        }
    }
}

pub(crate) proof fn lemma_pair_at_bound(t: Seq<char>, i: int)
    requires
        0 <= i,
        pair_at(t, i) is Some,
    ensures
        i < end_of(pair_at(t, i)) <= t.len(),
{
    lemma_skip_ws(t, i);
    let p = skip_ws(t, i);
    lemma_skip_ws(t, p + 1);
    let q = skip_ws(t, p + 1);
    lemma_parse_str_bound(t, q + 1);
    let e1 = end_of(parse_str(t, q + 1));
    lemma_skip_ws(t, e1);
    let r = skip_ws(t, e1);
    lemma_skip_ws(t, r + 1);
    let r2 = skip_ws(t, r + 1);
    lemma_parse_str_bound(t, r2 + 1);
    let e2 = end_of(parse_str(t, r2 + 1));
    lemma_skip_ws(t, e2);
}

pub(crate) proof fn lemma_pre_pair_at(t1: Seq<char>, t2: Seq<char>, m: int, i: int)
    requires
        agree(t1, t2, m),
        0 <= i,
        pair_at(t1, i) is Some,
        end_of(pair_at(t1, i)) <= m,
    ensures
        pair_at(t2, i) == pair_at(t1, i),
{
    lemma_skip_ws(t1, i);
    let p = skip_ws(t1, i);
    lemma_skip_ws(t1, p + 1);
    let q = skip_ws(t1, p + 1);
    lemma_parse_str_bound(t1, q + 1);
    let e1 = end_of(parse_str(t1, q + 1));
    lemma_skip_ws(t1, e1);
    let r = skip_ws(t1, e1);
    lemma_skip_ws(t1, r + 1);
    let r2 = skip_ws(t1, r + 1);
    lemma_parse_str_bound(t1, r2 + 1);
    let e2 = end_of(parse_str(t1, r2 + 1));
    lemma_skip_ws(t1, e2);
    let w = skip_ws(t1, e2);
    lemma_pre_skip_ws(t1, t2, m, i);
    assert(t1[p] == t2[p]);
    lemma_pre_skip_ws(t1, t2, m, p + 1);
    assert(t1[q] == t2[q]);
    lemma_pre_parse_str(t1, t2, m, q + 1);
    lemma_pre_skip_ws(t1, t2, m, e1);
    assert(t1[r] == t2[r]);
    lemma_pre_skip_ws(t1, t2, m, r + 1);
    assert(t1[r2] == t2[r2]);
    lemma_pre_parse_str(t1, t2, m, r2 + 1);
    lemma_pre_skip_ws(t1, t2, m, e2);
    assert(t1[w] == t2[w]);
}

pub(crate) proof fn lemma_top_n_elems_bound(t: Seq<char>, i: int, first: bool, n: nat, acc: Seq<PairV>)
    requires
        0 <= i,
        top_n_elems(t, i, first, n, acc) is Some,
    ensures
        i < end_of(top_n_elems(t, i, first, n, acc)) <= t.len(),
    decreases t.len() - i,
{
    lemma_skip_ws(t, i);
    match seq_step(t, i, first) {
        SeqStep::Elem { at } => {
            if acc.len() < n {
                let (pv, e) = pair_at(t, at)->0;
                lemma_top_n_elems_bound(t, e, false, n, acc.push(pv));
            } else {
                let e = crate::json::value_end(t, at, false)->0;
                lemma_top_n_elems_bound(t, e, false, n, acc);
            }
        },
        _ => {},
    }
}

proof fn lemma_pre_top_n_elems(t1: Seq<char>, t2: Seq<char>, m: int, i: int, first: bool, n: nat, acc: Seq<PairV>)
    requires
        agree(t1, t2, m),
        0 <= i,
        top_n_elems(t1, i, first, n, acc) is Some,
        end_of(top_n_elems(t1, i, first, n, acc)) <= m,
    ensures
        top_n_elems(t2, i, first, n, acc) == top_n_elems(t1, i, first, n, acc),
    decreases t1.len() - i,
{
    lemma_pre_steps(t1, t2, m, i, first);
    match seq_step(t1, i, first) {
        SeqStep::Elem { at } => {
            if acc.len() < n {
                let (pv, e) = pair_at(t1, at)->0;
                lemma_top_n_elems_bound(t1, e, false, n, acc.push(pv));
                lemma_pair_at_bound(t1, at);
                lemma_pre_pair_at(t1, t2, m, at);
                lemma_pre_top_n_elems(t1, t2, m, e, false, n, acc.push(pv));
            } else {
                let e = crate::json::value_end(t1, at, false)->0;
                lemma_top_n_elems_bound(t1, e, false, n, acc);
                lemma_scan_ge(t1, at, Seq::empty(), ScanMode::Value, false);
                lemma_skip_ws(t1, at);
                lemma_pre_scan(t1, t2, m, at, Seq::empty(), ScanMode::Value, false);
                lemma_pre_top_n_elems(t1, t2, m, e, false, n, acc);
            }
        },
        _ => {},
    }
}

pub(crate) proof fn lemma_pre_top_n_array(t1: Seq<char>, t2: Seq<char>, m: int, i: int, n: nat)
    requires
        agree(t1, t2, m),
        0 <= i,
        top_n_array(t1, i, n) is Some,
        end_of(top_n_array(t1, i, n)) <= m,
    ensures
        top_n_array(t2, i, n) == top_n_array(t1, i, n),
{
    lemma_skip_ws(t1, i);
    let p = skip_ws(t1, i);
    lemma_top_n_elems_bound(t1, p + 1, true, n, Seq::empty());
    lemma_pre_skip_ws(t1, t2, m, i);
    assert(t1[p] == t2[p]);
    lemma_pre_top_n_elems(t1, t2, m, p + 1, true, n, Seq::empty());
}

} // verus!
