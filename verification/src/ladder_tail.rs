//! The partial reading takes the first `n` elements of a `bids` or `asks`
//! array as levels and only checks that the others are JSON: what those others
//! hold, and how many there are, does not change what it gives.
use vstd::prelude::*;
use crate::json::{skip_ws, plain_str_end, value_end, ScanMode};
use crate::text_shift::lemma_skip_ws;
use crate::text_prefix::{
    agree, end_of, lemma_pre_steps, lemma_pre_pair_at, lemma_pair_at_bound, lemma_top_n_elems_bound,
    lemma_pre_top_n_array, lemma_pre_skip_ws, lemma_pre_plain_str_end, lemma_pre_scan, lemma_scan_ge,
};
use crate::book_json::{
    PairV, SeqStep, seq_step, map_step, pair_at, top_n_elems, top_n_array, raw_members, raw_top_n,
    bids_word, asks_word,
};

verus! {

/// Where the elements of an array read from `i` on (`first`: none read yet)
/// end when none is taken as a pair: each is only checked to be JSON. The
/// position after the closing `]`.
pub open spec fn loose_end(t: Seq<char>, i: int, first: bool) -> Option<int> {
    match top_n_elems(t, i, first, 0, Seq::empty()) {
        Some((_, e)) => Some(e),
        None => None,
    }
}

/// Whether reading `k` elements of an array as pairs, from `i` on, comes to
/// position `m`.
pub open spec fn pairs_reach(t: Seq<char>, i: int, first: bool, k: nat, m: int) -> bool
    decreases k,
{
    if k == 0 {
        i == m
    } else {
        match seq_step(t, i, first) {
            SeqStep::Elem { at } => match pair_at(t, at) {
                Some((_, e)) => i < e && pairs_reach(t, e, false, (k - 1) as nat, m),
                None => false,
            },
            _ => false,
        }
    }
}

/// The `k` pairs read from `i` on.
pub open spec fn reached_pairs(t: Seq<char>, i: int, first: bool, k: nat) -> Seq<PairV>
    decreases k,
{
    if k == 0 {
        Seq::empty()
    } else {
        match seq_step(t, i, first) {
            SeqStep::Elem { at } => match pair_at(t, at) {
                Some((pv, e)) => seq![pv] + reached_pairs(t, e, false, (k - 1) as nat),
                None => Seq::empty(),
            },
            _ => Seq::empty(),
        }
    }
}

/// Whether the array at `i` (after whitespace) has its first `n` elements read
/// as pairs by position `m`.
pub open spec fn array_reach(t: Seq<char>, i: int, n: nat, m: int) -> bool {
    let p = skip_ws(t, i);
    &&& 0 <= i <= p < t.len()
    &&& t[p] == '['
    &&& pairs_reach(t, p + 1, true, n, m)
}

/// Where the value of another member ends, or -1 where it is not JSON.
pub open spec fn member_value_end(t: Seq<char>, i: int) -> int {
    match value_end(t, i, true) {
        Some(e) => e,
        None => -1,
    }
}

/// Whether the partial reading of the members of an object, from `i` on, comes
/// to position `m` inside the array of a `bids` member (an `asks` member when
/// `ask`) with `n` of its elements read as pairs.
pub open spec fn members_reach(t: Seq<char>, i: int, first: bool, n: nat, m: int, ask: bool) -> bool
    decreases t.len() - i,
{
    match map_step(t, i, first) {
        SeqStep::Elem { at } => match plain_str_end(t, at + 1) {
            None => false,
            Some(ke) => {
                let key = t.subrange(at + 1, ke - 1);
                let c = skip_ws(t, ke);
                if c < ke || c >= t.len() || t[c] != ':' {
                    false
                } else {
                    let side = if ask {
                        asks_word()
                    } else {
                        bids_word()
                    };
                    let e = if key == bids_word() || key == asks_word() {
                        end_of(top_n_array(t, c + 1, n))
                    } else {
                        member_value_end(t, c + 1)
                    };
                    (key == side && array_reach(t, c + 1, n, m)) || (i < e < m && e <= t.len() && members_reach(
                        t,
                        e,
                        false,
                        n,
                        m,
                        ask,
                    ))
                }
            },
        },
        _ => false,
    }
}

/// Whether the partial reading of the object at the start of `t` comes to
/// position `m` inside the array of a `bids` member (an `asks` member when
/// `ask`) with `n` of its elements read as pairs.
pub open spec fn object_reach(t: Seq<char>, n: nat, m: int, ask: bool) -> bool {
    let p = skip_ws(t, 0);
    &&& p < t.len()
    &&& t[p] == '{'
    &&& members_reach(t, p + 1, true, n, m, ask)
}

/// Once `n` elements are taken, the others are only checked.
proof fn lemma_loose_elems(t: Seq<char>, i: int, first: bool, n: nat, acc: Seq<PairV>)
    requires
        0 <= i,
        acc.len() >= n,
    ensures
        top_n_elems(t, i, first, n, acc) == match loose_end(t, i, first) {
            Some(e) => Some((acc, e)),
            None => None,
        },
    decreases t.len() - i,
{
    match seq_step(t, i, first) {
        SeqStep::Elem { at } => {
            match value_end(t, at, false) {
                Some(e) => {
                    if i < e <= t.len() {
                        lemma_loose_elems(t, e, false, n, acc);
                        lemma_loose_elems(t, e, false, 0, Seq::empty());
                    }
                },
                None => {},
            }
        },
        _ => {},
    }
}

proof fn lemma_pairs_reach_le(t: Seq<char>, i: int, first: bool, k: nat, m: int)
    requires
        pairs_reach(t, i, first, k, m),
    ensures
        i <= m,
    decreases k,
{
    if k > 0 {
        let at = seq_step(t, i, first)->at;
        let e = end_of(pair_at(t, at));
        lemma_pairs_reach_le(t, e, false, (k - 1) as nat, m);
    }
}

proof fn lemma_pairs_reach(
    t1: Seq<char>,
    t2: Seq<char>,
    m: int,
    i: int,
    first: bool,
    k: nat,
    n: nat,
    acc: Seq<PairV>,
    e1: int,
    e2: int,
)
    requires
        agree(t1, t2, m),
        0 <= i,
        pairs_reach(t1, i, first, k, m),
        acc.len() + k == n,
        loose_end(t1, m, first && k == 0) == Some(e1),
        loose_end(t2, m, first && k == 0) == Some(e2),
    ensures
        top_n_elems(t1, i, first, n, acc) == Some((acc + reached_pairs(t1, i, first, k), e1)),
        top_n_elems(t2, i, first, n, acc) == Some((acc + reached_pairs(t1, i, first, k), e2)),
    decreases k,
{
    if k == 0 {
        lemma_loose_elems(t1, i, first, n, acc);
        lemma_loose_elems(t2, i, first, n, acc);
        assert(acc + reached_pairs(t1, i, first, k) =~= acc);
    } else {
        let at = seq_step(t1, i, first)->at;
        let (pv, e) = pair_at(t1, at)->0;
        lemma_pairs_reach_le(t1, e, false, (k - 1) as nat, m);
        lemma_pair_at_bound(t1, at);
        lemma_pre_steps(t1, t2, m, i, first);
        lemma_pre_pair_at(t1, t2, m, at);
        lemma_pairs_reach(t1, t2, m, e, false, (k - 1) as nat, n, acc.push(pv), e1, e2);
        assert(acc.push(pv) + reached_pairs(t1, e, false, (k - 1) as nat) =~= acc + reached_pairs(
            t1,
            i,
            first,
            k,
        ));
    }
}

proof fn lemma_members_reach(
    t1: Seq<char>,
    t2: Seq<char>,
    m: int,
    i: int,
    first: bool,
    n: nat,
    ask: bool,
    e1: int,
    e2: int,
    bids: Seq<PairV>,
    asks: Seq<PairV>,
)
    requires
        agree(t1, t2, m),
        0 <= i,
        members_reach(t1, i, first, n, m, ask),
        loose_end(t1, m, n == 0) == Some(e1),
        loose_end(t2, m, n == 0) == Some(e2),
        t1.skip(e1) == t2.skip(e2),
    ensures
        raw_members(t1, i, first, n, bids, asks) == raw_members(t2, i, first, n, bids, asks),
    decreases t1.len() - i,
{
    let at = map_step(t1, i, first)->at;
    let ke = plain_str_end(t1, at + 1)->0;
    let key = t1.subrange(at + 1, ke - 1);
    let c = skip_ws(t1, ke);
    let side = if ask {
        asks_word()
    } else {
        bids_word()
    };
    let ladder = key == bids_word() || key == asks_word();
    let e = if ladder {
        end_of(top_n_array(t1, c + 1, n))
    } else {
        member_value_end(t1, c + 1)
    };
    crate::reader_laws::lemma_plain_end_bound(t1, at + 1);
    crate::text_shift::lemma_step_advances(t1, i, first);
    lemma_skip_ws(t1, ke);
    lemma_skip_ws(t1, c + 1);
    let here = key == side && array_reach(t1, c + 1, n, m);
    if here {
        let p = skip_ws(t1, c + 1);
        lemma_pairs_reach_le(t1, p + 1, true, n, m);
    } else if ladder {
        lemma_top_n_elems_bound(t1, skip_ws(t1, c + 1) + 1, true, n, Seq::empty());
    } else {
        lemma_scan_ge(t1, c + 1, Seq::empty(), ScanMode::Value, true);
    }
    assert(c < m);
    lemma_pre_steps(t1, t2, m, i, first);
    lemma_pre_plain_str_end(t1, t2, m, at + 1);
    assert(t1.subrange(at + 1, ke - 1) =~= t2.subrange(at + 1, ke - 1));
    lemma_pre_skip_ws(t1, t2, m, ke);
    assert(t1[c] == t2[c]);
    if here {
        let p = skip_ws(t1, c + 1);
        lemma_pre_skip_ws(t1, t2, m, c + 1);
        assert(t1[p] == t2[p]);
        lemma_pairs_reach(t1, t2, m, p + 1, true, n, n, Seq::empty(), e1, e2);
        let l = Seq::<PairV>::empty() + reached_pairs(t1, p + 1, true, n);
        assert(top_n_array(t1, c + 1, n) == Some((l, e1)));
        assert(top_n_array(t2, c + 1, n) == Some((l, e2)));
        lemma_top_n_elems_bound(t1, m, n == 0, 0, Seq::empty());
        lemma_top_n_elems_bound(t2, m, n == 0, 0, Seq::empty());
        crate::text_shift::lemma_shift_raw_members(t1, e1, 0, false, n, l, asks);
        crate::text_shift::lemma_shift_raw_members(t2, e2, 0, false, n, l, asks);
        crate::text_shift::lemma_shift_raw_members(t1, e1, 0, false, n, bids, l);
        crate::text_shift::lemma_shift_raw_members(t2, e2, 0, false, n, bids, l);
    } else if ladder {
        lemma_pre_top_n_array(t1, t2, m, c + 1, n);
        let (l, _) = top_n_array(t1, c + 1, n)->0;
        lemma_members_reach(t1, t2, m, e, false, n, ask, e1, e2, l, asks);
        lemma_members_reach(t1, t2, m, e, false, n, ask, e1, e2, bids, l);
    } else {
        lemma_pre_scan(t1, t2, m, c + 1, Seq::empty(), ScanMode::Value, true);
        lemma_members_reach(t1, t2, m, e, false, n, ask, e1, e2, bids, asks);
    }
}

/// In the partial reading, the elements of a `bids` or `asks` array after its
/// first `n` are only checked to be JSON: two texts that are the same up to
/// position `m`, where the reading of `t1` has read the first `n` elements of
/// such an array, that each go on with any JSON elements closing that array
/// (up to `e1` and `e2`), and that are the same after the array, are read
/// alike: both fail, or both give the same bids and asks.
pub proof fn law_later_elements_ignored(
    t1: Seq<char>,
    t2: Seq<char>,
    n: nat,
    m: int,
    e1: int,
    e2: int,
    ask: bool,
)
    requires
        0 <= m <= t1.len(),
        m <= t2.len(),
        t1.take(m) == t2.take(m),
        object_reach(t1, n, m, ask),
        loose_end(t1, m, n == 0) == Some(e1),
        loose_end(t2, m, n == 0) == Some(e2),
        t1.skip(e1) == t2.skip(e2),
    ensures
        raw_top_n(t1, n) == raw_top_n(t2, n),
{
    assert forall|j: int| 0 <= j < m implies #[trigger] t1[j] == t2[j] by {
        assert(t1.take(m)[j] == t1[j]);
        assert(t2.take(m)[j] == t2[j]);
        assert(t1.take(m)[j] == t2.take(m)[j]);
    }
    assert(agree(t1, t2, m));
    lemma_skip_ws(t1, 0);
    let p = skip_ws(t1, 0);
    lemma_members_bound(t1, p + 1, true, n, m, ask);
    lemma_pre_skip_ws(t1, t2, m, 0);
    assert(t1[p] == t2[p]);
    lemma_members_reach(t1, t2, m, p + 1, true, n, ask, e1, e2, Seq::empty(), Seq::empty());
}

proof fn lemma_members_bound(t: Seq<char>, i: int, first: bool, n: nat, m: int, ask: bool)
    requires
        0 <= i,
        members_reach(t, i, first, n, m, ask),
    ensures
        i < m,
    decreases t.len() - i,
{
    let at = map_step(t, i, first)->at;
    let ke = plain_str_end(t, at + 1)->0;
    let c = skip_ws(t, ke);
    let key = t.subrange(at + 1, ke - 1);
    let side = if ask {
        asks_word()
    } else {
        bids_word()
    };
    if key == side && array_reach(t, c + 1, n, m) {
        lemma_skip_ws(t, i);
        lemma_skip_ws(t, c + 1);
        lemma_pairs_reach_le(t, skip_ws(t, c + 1) + 1, true, n, m);
        crate::reader_laws::lemma_plain_end_bound(t, at + 1);
        crate::text_shift::lemma_step_advances(t, i, first);
        lemma_skip_ws(t, ke);
    }
}

} // verus!
