//! A first aggregation of the two books: every level received is pooled, and
//! each pool keeps its best `KEEP_LEVELS` levels: the highest-priced bids and
//! the lowest-priced asks.
use vstd::prelude::*;
use crate::data_types::{PxQt, PxQtLadder, ExchangePriceLevel, LevelView, levels_view, make_exchange_price_level, is_number_text, px_text_order_exec};
use crate::decimal::{is_px_text, is_ordered_px, px_text_order, law_px_order_total_preorder};
use crate::book_worker::{tag, BookSide};
use vstd::multiset::Multiset;

verus! {

broadcast use vstd::seq_lib::to_multiset_build, vstd::seq_lib::to_multiset_remove, vstd::seq_lib::to_multiset_len;

/// The number of levels a pool keeps.
pub const KEEP_LEVELS: usize = 10;

/// The name under which the levels of a book are pooled.
pub open spec fn pool_name(side: BookSide) -> Seq<char> {
    match side {
        BookSide::A => seq!['B', 'i', 'n', 'a', 'n', 'c', 'e'],
        BookSide::B => seq!['B', 'i', 't', 's', 't', 'a', 'm', 'p'],
    }
}

/// Whether the price and the amount of a level are numbers.
pub open spec fn level_valid(pq: PxQt) -> bool {
    is_px_text(pq[0]@) && is_px_text(pq[1]@)
}

/// Whether every price and amount of a ladder is a number.
pub open spec fn ladder_valid(l: Seq<PxQt>) -> bool {
    forall|i: int| 0 <= i < l.len() ==> #[trigger] level_valid(l[i])
}

/// Whether no price of a ladder is not-a-number.
pub open spec fn ladder_no_nan(l: Seq<PxQt>) -> bool {
    forall|i: int| 0 <= i < l.len() && is_px_text(#[trigger] l[i][0]@) ==> is_ordered_px(l[i][0]@)
}

/// Whether every level of a pool has an ordered price and a number amount.
pub open spec fn pool_wf(v: Seq<LevelView>) -> bool {
    forall|i: int| 0 <= i < v.len() ==> is_ordered_px(#[trigger] v[i].price) && is_px_text(v[i].amount)
}

/// Whether every price and amount of a pool is a number, and, when the pool
/// holds two levels or more, no price is not-a-number (the prices of such a
/// pool are compared).
pub open spec fn pool_valid(v: Seq<LevelView>) -> bool {
    &&& forall|i: int| 0 <= i < v.len() ==> is_px_text(#[trigger] v[i].price) && is_px_text(v[i].amount)
    &&& v.len() >= 2 ==> pool_wf(v)
}

/// Price `a` is no better than price `b` on the side (`bid`: higher is better,
/// otherwise lower is better).
pub open spec fn no_better(bid: bool, a: Seq<char>, b: Seq<char>) -> bool {
    if bid {
        px_text_order(a, b) <= 0
    } else {
        px_text_order(a, b) >= 0
    }
}

/// `kept` holds the `min(n, |all|)` best levels of `all` for the side: with
/// the levels `dropped`, it makes up `all`, and no dropped level is better than
/// a kept one. Which of two equally priced levels is kept is left open.
pub open spec fn keeps_best(kept: Seq<LevelView>, all: Seq<LevelView>, n: nat, bid: bool) -> bool {
    &&& kept.len() == if all.len() < n {
        all.len()
    } else {
        n
    }
    &&& exists|dropped: Seq<LevelView>|
        {
            &&& #[trigger] kept.to_multiset().add(dropped.to_multiset()) == all.to_multiset()
            &&& forall|i: int, j: int|
                0 <= i < dropped.len() && 0 <= j < kept.len() ==> no_better(
                    bid,
                    #[trigger] dropped[i].price,
                    #[trigger] kept[j].price,
                )
        }
}

/// An update is refused exactly when one of its prices or amounts is not a
/// number: a ladder is valid when each of its prices and amounts is in the
/// number grammar, whatever number it writes.
pub proof fn law_ladder_valid_exactly_numbers(l: Seq<PxQt>)
    ensures
        ladder_valid(l) <==> forall|i: int|
            0 <= i < l.len() ==> is_px_text(#[trigger] l[i][0]@) && is_px_text(l[i][1]@),
{
    if ladder_valid(l) {
        assert forall|i: int| 0 <= i < l.len() implies is_px_text(#[trigger] l[i][0]@) && is_px_text(
            l[i][1]@,
        ) by {
            assert(level_valid(l[i]));
        }
    }
}

/// The error of an update with a price or an amount that is not a number.
#[derive(Debug, Clone, Copy, PartialEq, Eq)]
pub enum PoolError {
    InvalidNumber,
}

/// The text of the error of an update with a text that is not a number.
pub open spec fn invalid_number_text() -> Seq<char> {
    seq!['i', 'n', 'v', 'a', 'l', 'i', 'd', ' ', 'f', 'l', 'o', 'a', 't', ' ', 'l', 'i', 't', 'e', 'r', 'a', 'l']
}

impl PoolError {
    /// The error's message.
    pub fn to_string(&self) -> (r: String)
        ensures
            r@ == invalid_number_text(),
    {
        let r = "invalid float literal".to_string();
        proof {
            reveal_strlit("invalid float literal");
        }
        assert(r@ =~= invalid_number_text());
        r
    }
}

/// The pooled bids and asks.
pub struct LevelPool {
    pub bids: Vec<ExchangePriceLevel>,
    pub asks: Vec<ExchangePriceLevel>,
}

fn ladder_is_valid(l: &PxQtLadder) -> (r: bool)
    ensures
        r == ladder_valid(l@),
{
    let mut k: usize = 0;
    while k < l.len()
        invariant
            k <= l@.len(),
            forall|i: int| 0 <= i < k ==> #[trigger] level_valid(l@[i]),
        decreases l@.len() - k,
    {
        let p: &str = l[k][0].as_str();
        let q: &str = l[k][1].as_str();
        if !is_number_text(p) || !is_number_text(q) {
            assert(!level_valid(l@[k as int]));
            return false;
        }
        assert(level_valid(l@[k as int]));
        k += 1;
    }
    true
}

/// Appends the levels of `l`, named `name`, to `v`.
fn append_levels(v: &mut Vec<ExchangePriceLevel>, name: &str, l: &PxQtLadder)
    ensures
        levels_view(final(v)@) == levels_view(old(v)@) + tag(name@, l@),
{
    let ghost start = levels_view(v@);
    let mut k: usize = 0;
    while k < l.len()
        invariant
            k <= l@.len(),
            levels_view(v@) == start + tag(name@, l@.take(k as int)),
        decreases l@.len() - k,
    {
        let lv = make_exchange_price_level(name.to_string(), &l[k]);
        let ghost v0 = v@;
        v.push(lv);
        proof {
            assert(l@.take(k + 1) =~= l@.take(k as int).push(l@[k as int]));
            assert(tag(name@, l@.take(k + 1)) =~= tag(name@, l@.take(k as int)).push(lv@));
            assert(levels_view(v@) =~= levels_view(v0).push(lv@));
        }
        k += 1;
    }
    proof {
        assert(l@.take(l@.len() as int) =~= l@);
    }
}

proof fn lemma_no_better_trans(bid: bool, a: Seq<char>, b: Seq<char>, c: Seq<char>)
    requires
        is_ordered_px(a),
        is_ordered_px(b),
        is_ordered_px(c),
    ensures
        no_better(bid, a, a),
        !no_better(bid, a, b) ==> no_better(bid, b, a),
        no_better(bid, a, b) && no_better(bid, b, c) ==> no_better(bid, a, c),
{
    law_px_order_total_preorder(a, b, c);
    law_px_order_total_preorder(c, b, a);
    law_px_order_total_preorder(b, a, c);
    law_px_order_total_preorder(a, c, b);
}

/// The position of a worst level of `v` for the side: a lowest-priced bid or a
/// highest-priced ask.
fn worst(v: &Vec<ExchangePriceLevel>, bid: bool) -> (r: usize)
    requires
        v@.len() > 0,
        pool_wf(levels_view(v@)),
    ensures
        r < v@.len(),
        forall|j: int| 0 <= j < v@.len() ==> no_better(bid, v@[r as int].price@, #[trigger] v@[j].price@),
{
    let ghost lv = levels_view(v@);
    assert(forall|j: int| 0 <= j < v@.len() ==> #[trigger] v@[j].price@ == lv[j].price);
    let mut best: usize = 0;
    let mut k: usize = 1;
    proof {
        assert(is_ordered_px(lv[0].price));
        lemma_no_better_trans(bid, v@[0].price@, v@[0].price@, v@[0].price@);
    }
    while k < v.len()
        invariant
            1 <= k <= v@.len(),
            best < k,
            pool_wf(lv),
            lv == levels_view(v@),
            forall|j: int| 0 <= j < v@.len() ==> #[trigger] v@[j].price@ == lv[j].price,
            forall|j: int| 0 <= j < k ==> no_better(bid, v@[best as int].price@, #[trigger] v@[j].price@),
        decreases v@.len() - k,
    {
        assert(is_ordered_px(lv[k as int].price));
        assert(is_ordered_px(lv[best as int].price));
        let c = px_text_order_exec(v[k].price.as_str(), v[best].price.as_str());
        let worse = if bid {
            c < 0
        } else {
            c > 0
        };
        let ghost pk = v@[k as int].price@;
        let ghost pb = v@[best as int].price@;
        if worse {
            proof {
                assert forall|j: int| 0 <= j < k + 1 implies no_better(bid, pk, #[trigger] v@[j].price@) by {
                    assert(is_ordered_px(lv[j].price));
                    lemma_no_better_trans(bid, pk, pb, v@[j].price@);
                    lemma_no_better_trans(bid, pk, pk, pk);
                }
            }
            best = k;
        } else {
            proof {
                law_px_order_total_preorder(pk, pb, pb);
                assert(no_better(bid, pb, pk));
            }
        }
        k += 1;
    }
    best
}

/// Keeps the `KEEP_LEVELS` best levels of `v` for the side.
fn keep_best(v: &mut Vec<ExchangePriceLevel>, bid: bool)
    requires
        pool_valid(levels_view(old(v)@)),
    ensures
        pool_valid(levels_view(final(v)@)),
        keeps_best(levels_view(final(v)@), levels_view(old(v)@), KEEP_LEVELS as nat, bid),
{
    let ghost all = levels_view(v@);
    let ghost mut dropped: Seq<LevelView> = Seq::empty();
    proof {
        dropped.to_multiset_ensures();
        assert(dropped.to_multiset() =~= Multiset::<LevelView>::empty());
        assert(levels_view(v@).to_multiset().add(dropped.to_multiset()) =~= all.to_multiset());
    }
    while v.len() > KEEP_LEVELS
        invariant
            pool_valid(levels_view(v@)),
            levels_view(v@).to_multiset().add(dropped.to_multiset()) == all.to_multiset(),
            forall|i: int, j: int|
                0 <= i < dropped.len() && 0 <= j < v@.len() ==> no_better(
                    bid,
                    #[trigger] dropped[i].price,
                    #[trigger] levels_view(v@)[j].price,
                ),
            all.len() <= KEEP_LEVELS ==> v@.len() == all.len(),
            all.len() > KEEP_LEVELS ==> v@.len() >= KEEP_LEVELS,
            v@.len() + dropped.len() == all.len(),
        decreases v@.len(),
    {
        let i = worst(v, bid);
        let ghost before = levels_view(v@);
        let ghost m = before[i as int];
        let removed = v.remove(i);
        proof {
            assert(levels_view(v@) =~= before.remove(i as int));
            let after = levels_view(v@);
            assert(after.to_multiset() == before.to_multiset().remove(m));
            assert(dropped.push(m).to_multiset() == dropped.to_multiset().insert(m));
            assert(before.to_multiset().contains(m)) by {
                vstd::seq_lib::to_multiset_contains(before, m);
                assert(before.contains(m)) by {
                    assert(before[i as int] == m);
                }
            }
            assert(after.to_multiset().add(dropped.push(m).to_multiset()) =~= all.to_multiset());
            assert forall|a: int, b: int|
                0 <= a < dropped.push(m).len() && 0 <= b < after.len() implies no_better(
                bid,
                #[trigger] dropped.push(m)[a].price,
                #[trigger] after[b].price,
            ) by {
                let b0 = if b < i { b } else { b + 1 };
                assert(after[b] == before[b0]);
                if a < dropped.len() {
                    assert(dropped.push(m)[a] == dropped[a]);
                } else {
                    assert(before[b0].price == v@[b].price@) by {
                        assert(after[b] == v@[b]@);
                    }
                }
            }
            assert forall|c: int| 0 <= c < after.len() implies is_px_text(#[trigger] after[c].price)
                && is_px_text(after[c].amount) && is_ordered_px(after[c].price) by {
                let c0 = if c < i { c } else { c + 1 };
                assert(after[c] == before[c0]);
                assert(is_px_text(before[c0].price));
                assert(is_ordered_px(before[c0].price));
            }
            dropped = dropped.push(m);
        }
    }
}

impl LevelPool {
    /// Empty pools.
    pub fn new() -> (r: Self)
        ensures
            r.bids@.len() == 0,
            r.asks@.len() == 0,
    {
        LevelPool { bids: Vec::new(), asks: Vec::new() }
    }

    /// Pools an update `(bids, asks)` of book `side`. An update with a price or an
    /// amount that is not a number is refused and leaves the pools as they were.
    /// Otherwise its levels, named after the book, join the pools; the bid pool
    /// then keeps its `KEEP_LEVELS` highest-priced levels and the ask pool its
    /// `KEEP_LEVELS` lowest-priced ones. Prices are compared only in a pool of
    /// two levels or more, and then none may be not-a-number.
    pub fn update(&mut self, side: BookSide, bids: &PxQtLadder, asks: &PxQtLadder) -> (r: Result<(), PoolError>)
        requires
            pool_valid(levels_view(old(self).bids@)),
            pool_valid(levels_view(old(self).asks@)),
            ladder_valid(bids@) && ladder_valid(asks@) ==> {
                &&& old(self).bids@.len() + bids@.len() >= 2 ==> pool_wf(levels_view(old(self).bids@))
                    && ladder_no_nan(bids@)
                &&& old(self).asks@.len() + asks@.len() >= 2 ==> pool_wf(levels_view(old(self).asks@))
                    && ladder_no_nan(asks@)
            },
        ensures
            r is Err <==> !(ladder_valid(bids@) && ladder_valid(asks@)),
            r is Err ==> r == Err::<(), PoolError>(PoolError::InvalidNumber) && final(self).bids@ == old(
                self,
            ).bids@ && final(self).asks@ == old(self).asks@,
            r is Ok ==> {
                &&& pool_valid(levels_view(final(self).bids@))
                &&& pool_valid(levels_view(final(self).asks@))
                &&& keeps_best(
                    levels_view(final(self).bids@),
                    levels_view(old(self).bids@) + tag(pool_name(side), bids@),
                    KEEP_LEVELS as nat,
                    true,
                )
                &&& keeps_best(
                    levels_view(final(self).asks@),
                    levels_view(old(self).asks@) + tag(pool_name(side), asks@),
                    KEEP_LEVELS as nat,
                    false,
                )
            },
    {
        if !ladder_is_valid(bids) || !ladder_is_valid(asks) {
            return Err(PoolError::InvalidNumber);
        }
        let name: &str = match side {
            BookSide::A => "Binance",
            BookSide::B => "Bitstamp",
        };
        proof {
            reveal_strlit("Binance");
            reveal_strlit("Bitstamp");
            assert(name@ =~= pool_name(side));
        }
        append_levels(&mut self.bids, name, bids);
        append_levels(&mut self.asks, name, asks);
        proof {
            lemma_pool_valid_concat(levels_view(old(self).bids@), pool_name(side), bids@);
            lemma_pool_valid_concat(levels_view(old(self).asks@), pool_name(side), asks@);
        }
        keep_best(&mut self.bids, true);
        keep_best(&mut self.asks, false);
        Ok(())
    }
}

proof fn lemma_pool_valid_concat(a: Seq<LevelView>, name: Seq<char>, l: Seq<PxQt>)
    requires
        pool_valid(a),
        ladder_valid(l),
        a.len() + l.len() >= 2 ==> pool_wf(a) && ladder_no_nan(l),
    ensures
        pool_valid(a + tag(name, l)),
{
    let b = tag(name, l);
    assert forall|i: int| 0 <= i < (a + b).len() implies is_px_text(#[trigger] (a + b)[i].price)
        && is_px_text((a + b)[i].amount) by {
        if i < a.len() {
            assert((a + b)[i] == a[i]);
            assert(is_px_text(a[i].price));
        } else {
            assert((a + b)[i] == b[i - a.len()]);
            assert(b[i - a.len()] == crate::data_types::level_of(name, l[i - a.len()]));
            assert(level_valid(l[i - a.len()]));
        }
    }
    if (a + b).len() >= 2 {
        lemma_tag_wf(name, l);
        lemma_pool_wf_concat(a, b);
        assert(pool_wf(a + b));
    }
    assert(pool_valid(a + b));
}

proof fn lemma_tag_wf(name: Seq<char>, l: Seq<PxQt>)
    requires
        ladder_valid(l),
        ladder_no_nan(l),
    ensures
        pool_wf(tag(name, l)),
{
    assert forall|i: int| 0 <= i < tag(name, l).len() implies is_ordered_px(
        #[trigger] tag(name, l)[i].price,
    ) && is_px_text(tag(name, l)[i].amount) by {
        assert(level_valid(l[i]));
    }
}

proof fn lemma_pool_wf_concat(a: Seq<LevelView>, b: Seq<LevelView>)
    requires
        pool_wf(a),
        pool_wf(b),
    ensures
        pool_wf(a + b),
{
    assert forall|i: int| 0 <= i < (a + b).len() implies is_ordered_px(#[trigger] (a + b)[i].price)
        && is_px_text((a + b)[i].amount) by {
        if i < a.len() {
            assert((a + b)[i] == a[i]);
            assert(is_ordered_px(a[i].price));
        } else {
            assert((a + b)[i] == b[i - a.len()]);
            assert(is_ordered_px(b[i - a.len()].price));
        }
    }
}

proof fn lemma_member_ordered(s: Seq<LevelView>, v: LevelView)
    requires
        pool_wf(s),
        s.to_multiset().count(v) > 0,
    ensures
        is_ordered_px(v.price),
{
    vstd::seq_lib::to_multiset_contains(s, v);
    let i = choose|i: int| 0 <= i < s.len() && s[i] == v;
    assert(is_ordered_px(s[i].price));
}

proof fn lemma_index_count<A>(s: Seq<A>, i: int)
    requires
        0 <= i < s.len(),
    ensures
        s.to_multiset().count(s[i]) > 0,
{
    vstd::seq_lib::to_multiset_contains(s, s[i]);
    assert(s.contains(s[i]));
}

proof fn lemma_count_index<A>(s: Seq<A>, v: A) -> (i: int)
    requires
        s.to_multiset().count(v) > 0,
    ensures
        0 <= i < s.len(),
        s[i] == v,
{
    vstd::seq_lib::to_multiset_contains(s, v);
    choose|i: int| 0 <= i < s.len() && s[i] == v
}

/// Keeping the best levels of the best levels of `a`, with `x` added, keeps
/// the best levels of `a` with `x` added.
proof fn lemma_keeps_best_trans(k1: Seq<LevelView>, a: Seq<LevelView>, k2: Seq<LevelView>, x: Seq<LevelView>, n: nat, bid: bool)
    requires
        keeps_best(k1, a, n, bid),
        keeps_best(k2, k1 + x, n, bid),
        pool_wf(a + x),
    ensures
        keeps_best(k2, a + x, n, bid),
{
    broadcast use vstd::multiset::group_multiset_axioms, vstd::seq_lib::lemma_multiset_commutative;

    let d1 = choose|dropped: Seq<LevelView>|
        {
            &&& #[trigger] k1.to_multiset().add(dropped.to_multiset()) == a.to_multiset()
            &&& forall|i: int, j: int|
                0 <= i < dropped.len() && 0 <= j < k1.len() ==> no_better(
                    bid,
                    #[trigger] dropped[i].price,
                    #[trigger] k1[j].price,
                )
        };
    let d2 = choose|dropped: Seq<LevelView>|
        {
            &&& #[trigger] k2.to_multiset().add(dropped.to_multiset()) == (k1 + x).to_multiset()
            &&& forall|i: int, j: int|
                0 <= i < dropped.len() && 0 <= j < k2.len() ==> no_better(
                    bid,
                    #[trigger] dropped[i].price,
                    #[trigger] k2[j].price,
                )
        };
    let all = a + x;
    let dd = d2 + d1;
    vstd::seq_lib::lemma_multiset_commutative(a, x);
    vstd::seq_lib::lemma_multiset_commutative(k1, x);
    vstd::seq_lib::lemma_multiset_commutative(d2, d1);
    assert forall|v: LevelView| #[trigger] k2.to_multiset().add(dd.to_multiset()).count(v)
        == all.to_multiset().count(v) by {
        assert(k2.to_multiset().add(d2.to_multiset()).count(v) == (k1 + x).to_multiset().count(v));
        assert(k1.to_multiset().add(d1.to_multiset()).count(v) == a.to_multiset().count(v));
    }
    assert(k2.to_multiset().add(dd.to_multiset()) =~= all.to_multiset());
    assert forall|i: int, j: int| 0 <= i < dd.len() && 0 <= j < k2.len() implies no_better(
        bid,
        #[trigger] dd[i].price,
        #[trigger] k2[j].price,
    ) by {
        if i < d2.len() {
            assert(dd[i] == d2[i]);
        } else {
            let l = i - d2.len();
            let d = d1[l];
            let y = k2[j];
            assert(dd[i] == d);
            lemma_index_count(d1, l);
            lemma_member_ordered(all, d);
            lemma_index_count(k2, j);
            if k1.to_multiset().count(y) > 0 {
                let j1 = lemma_count_index(k1, y);
                assert(no_better(bid, d1[l].price, k1[j1].price));
            } else {
                lemma_member_ordered(all, y);
                if !no_better(bid, d.price, y.price) {
                    assert forall|v: LevelView| k1.to_multiset().count(v) > 0 implies d2.to_multiset().count(
                        v,
                    ) == 0 by {
                        if d2.to_multiset().count(v) > 0 {
                            let i2 = lemma_count_index(d2, v);
                            let i1 = lemma_count_index(k1, v);
                            lemma_member_ordered(all, v);
                            assert(no_better(bid, d2[i2].price, k2[j].price));
                            assert(no_better(bid, d1[l].price, k1[i1].price));
                            lemma_no_better_trans(bid, d.price, v.price, y.price);
                        }
                    }
                    let m1 = k1.to_multiset().insert(y);
                    assert forall|v: LevelView| #[trigger] m1.count(v) <= k2.to_multiset().count(v) by {
                        assert(k2.to_multiset().add(d2.to_multiset()).count(v) == (k1 + x).to_multiset().count(v));
                        assert((k1 + x).to_multiset() == k1.to_multiset().add(x.to_multiset()));
                        if v == y {
                            assert(k2.to_multiset().count(y) > 0);
                        } else if k1.to_multiset().count(v) > 0 {
                            assert(d2.to_multiset().count(v) == 0);
                        }
                    }
                    assert(m1.subset_of(k2.to_multiset()));
                    assert(k2.to_multiset().sub(m1).len() == k2.len() - m1.len());
                    assert(d1.len() > 0);
                    assert(a.to_multiset().len() == k1.to_multiset().len() + d1.to_multiset().len());
                    assert(k1.len() == n);
                    assert(k2.len() == n);
                    assert(m1.len() == k1.len() + 1);
                }
            }
        }
    }
}

/// The levels of a run of updates, each a book's side and its ladder, in the
/// order in which they were pooled and named after their books.
pub open spec fn pooled(updates: Seq<(BookSide, Seq<PxQt>)>) -> Seq<LevelView>
    decreases updates.len(),
{
    if updates.len() == 0 {
        Seq::empty()
    } else {
        pooled(updates.drop_last()) + tag(pool_name(updates.last().0), updates.last().1)
    }
}

/// Law: a pool that starts empty and takes each update as
/// `LevelPool::update` does (it keeps the best `KEEP_LEVELS` levels of what it
/// held and the update's levels) holds, after any run of updates, the best
/// `KEEP_LEVELS` levels of everything it was given: the highest-priced bids or
/// the lowest-priced asks received so far, as long as no price received is
/// not-a-number. `pools[j]` is the pool before the `j`-th update.
pub proof fn law_pool_keeps_best_of_all(
    pools: Seq<Seq<LevelView>>,
    updates: Seq<(BookSide, Seq<PxQt>)>,
    bid: bool,
)
    requires
        pools.len() == updates.len() + 1,
        pools[0].len() == 0,
        forall|j: int|
            0 <= j < updates.len() ==> keeps_best(
                #[trigger] pools[j + 1],
                pools[j] + tag(pool_name(updates[j].0), updates[j].1),
                KEEP_LEVELS as nat,
                bid,
            ),
        pool_wf(pooled(updates)),
    ensures
        keeps_best(pools.last(), pooled(updates), KEEP_LEVELS as nat, bid),
    decreases updates.len(),
{
    if updates.len() == 0 {
        let e = Seq::<LevelView>::empty();
        assert(pools.last() =~= e);
        assert(pooled(updates) =~= e);
        e.to_multiset_ensures();
        assert(e.to_multiset().add(e.to_multiset()) =~= e.to_multiset()) by {
            broadcast use vstd::multiset::group_multiset_axioms;
        }
        assert(keeps_best(e, e, KEEP_LEVELS as nat, bid));
    } else {
        let last = updates.len() - 1;
        let ps = pools.drop_last();
        let us = updates.drop_last();
        let u = tag(pool_name(updates[last].0), updates[last].1);
        assert(pooled(updates) == pooled(us) + u);
        assert forall|j: int| 0 <= j < us.len() implies keeps_best(
            #[trigger] ps[j + 1],
            ps[j] + tag(pool_name(us[j].0), us[j].1),
            KEEP_LEVELS as nat,
            bid,
        ) by {
            assert(ps[j + 1] == pools[j + 1]);
            assert(ps[j] == pools[j]);
            assert(us[j] == updates[j]);
        }
        assert(pool_wf(pooled(us))) by {
            assert forall|i: int| 0 <= i < pooled(us).len() implies is_ordered_px(
                #[trigger] pooled(us)[i].price,
            ) && is_px_text(pooled(us)[i].amount) by {
                assert(pooled(updates)[i] == pooled(us)[i]);
            }
        }
        law_pool_keeps_best_of_all(ps, us, bid);
        assert(ps.last() == pools[last]);
        assert(keeps_best(pools[last + 1], pools[last] + u, KEEP_LEVELS as nat, bid));
        lemma_keeps_best_trans(pools[last], pooled(us), pools.last(), u, KEEP_LEVELS as nat, bid);
    }
}

} // verus!
