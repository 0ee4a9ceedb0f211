//! Merging of two order books into the best `top_n` levels of both.
//!
//! Each exchange publishes its ladders best level first. The merge repeatedly
//! takes the better of the two next levels (the higher price for bids, the
//! lower for asks); on a tie it takes both, the level of the book that was just
//! updated first. It stops after `top_n` levels or when both ladders are used up.
use vstd::prelude::*;
use crate::data_types::{
    PxQt, PxQtLadder, ExchangePriceLevel, LevelView, levels_view, level_of, px_text_order_exec,
    make_exchange_price_level, is_number_text,
};
use crate::decimal::{is_px_text, px_text_order};
use crate::data_tunnel::PxQtLadderReceiver;

verus! {

/// The price text of a `[price, quantity]` pair.
pub open spec fn px_of(pq: PxQt) -> Seq<char> {
    pq[0]@
}

/// Whether, for comparison result `c` of the next levels of the two books, the
/// first book's level goes first.
pub open spec fn first_goes_first(bid: bool, c: int) -> bool {
    if bid {
        c > 0
    } else {
        c < 0
    }
}

/// The levels that a ladder of `name` becomes.
pub open spec fn tag(name: Seq<char>, l: Seq<PxQt>) -> Seq<LevelView> {
    l.map_values(|pq: PxQt| level_of(name, pq))
}

pub open spec fn min_nat(a: nat, b: nat) -> nat {
    if a < b {
        a
    } else {
        b
    }
}

/// The merge of ladder `from` of exchange `fname` with ladder `to` of exchange
/// `tname`, keeping at most `budget` levels; `bid` selects the bid side (higher
/// prices first) or the ask side (lower prices first).
pub open spec fn merge_levels(
    fname: Seq<char>,
    from: Seq<PxQt>,
    tname: Seq<char>,
    to: Seq<PxQt>,
    budget: nat,
    bid: bool,
) -> Seq<LevelView>
    decreases from.len() + to.len(),
{
    if budget == 0 {
        Seq::empty()
    } else if from.len() == 0 {
        tag(tname, to.take(min_nat(budget, to.len()) as int))
    } else if to.len() == 0 {
        tag(fname, from.take(min_nat(budget, from.len()) as int))
    } else {
        let c = px_text_order(px_of(from[0]), px_of(to[0]));
        if c == 0 {
            if budget >= 2 {
                seq![level_of(fname, from[0]), level_of(tname, to[0])] + merge_levels(
                    fname,
                    from.drop_first(),
                    tname,
                    to.drop_first(),
                    (budget - 2) as nat,
                    bid,
                )
            } else {
                seq![level_of(fname, from[0])]
            }
        } else if first_goes_first(bid, c) {
            seq![level_of(fname, from[0])] + merge_levels(
                fname,
                from.drop_first(),
                tname,
                to,
                (budget - 1) as nat,
                bid,
            )
        } else {
            seq![level_of(tname, to[0])] + merge_levels(
                fname,
                from,
                tname,
                to.drop_first(),
                (budget - 1) as nat,
                bid,
            )
        }
    }
}

/// Whether every comparison that the merge makes is between two price texts
/// that are numbers (the merge of two books is defined only then).
pub open spec fn merge_defined(from: Seq<PxQt>, to: Seq<PxQt>, budget: nat, bid: bool) -> bool
    decreases from.len() + to.len(),
{
    if budget == 0 || from.len() == 0 || to.len() == 0 {
        true
    } else {
        &&& is_px_text(px_of(from[0]))
        &&& is_px_text(px_of(to[0]))
        &&& {
            let c = px_text_order(px_of(from[0]), px_of(to[0]));
            if c == 0 {
                budget >= 2 ==> merge_defined(
                    from.drop_first(),
                    to.drop_first(),
                    (budget - 2) as nat,
                    bid,
                )
            } else if first_goes_first(bid, c) {
                merge_defined(from.drop_first(), to, (budget - 1) as nat, bid)
            } else {
                merge_defined(from, to.drop_first(), (budget - 1) as nat, bid)
            }
        }
    }
}

/// The merge of two ladders is defined whenever every price of both is a
/// number: whatever the prices are, equal ones included, only a price that is
/// not a number makes a merge undefined.
pub proof fn law_merge_defined_on_numbers(from: Seq<PxQt>, to: Seq<PxQt>, budget: nat, bid: bool)
    requires
        forall|i: int| 0 <= i < from.len() ==> is_px_text(#[trigger] from[i][0]@),
        forall|j: int| 0 <= j < to.len() ==> is_px_text(#[trigger] to[j][0]@),
    ensures
        merge_defined(from, to, budget, bid),
    decreases from.len() + to.len(),
{
    if budget == 0 || from.len() == 0 || to.len() == 0 {
    } else {
        assert(is_px_text(from[0][0]@));
        assert(is_px_text(to[0][0]@));
        assert forall|i: int| 0 <= i < from.drop_first().len() implies is_px_text(
            #[trigger] from.drop_first()[i][0]@,
        ) by {
            assert(from.drop_first()[i] == from[i + 1]);
        }
        assert forall|j: int| 0 <= j < to.drop_first().len() implies is_px_text(
            #[trigger] to.drop_first()[j][0]@,
        ) by {
            assert(to.drop_first()[j] == to[j + 1]);
        }
        let c = px_text_order(px_of(from[0]), px_of(to[0]));
        if c == 0 {
            if budget >= 2 {
                law_merge_defined_on_numbers(from.drop_first(), to.drop_first(), (budget - 2) as nat, bid);
            }
        } else if first_goes_first(bid, c) {
            law_merge_defined_on_numbers(from.drop_first(), to, (budget - 1) as nat, bid);
        } else {
            law_merge_defined_on_numbers(from, to.drop_first(), (budget - 1) as nat, bid);
        }
    }
}

proof fn lemma_merge_from_only(fname: Seq<char>, from: Seq<PxQt>, tname: Seq<char>, budget: nat, bid: bool)
    requires
        budget > 0,
        from.len() > 0,
    ensures
        merge_levels(fname, from, tname, Seq::empty(), budget, bid) == seq![level_of(fname, from[0])]
            + merge_levels(fname, from.drop_first(), tname, Seq::empty(), (budget - 1) as nat, bid),
{
    let m = min_nat(budget, from.len());
    let rest = from.drop_first();
    if budget - 1 == 0 {
        assert(tag(fname, from.take(m as int)) =~= seq![level_of(fname, from[0])]);
    } else if rest.len() == 0 {
        assert(tag(fname, from.take(m as int)) =~= seq![level_of(fname, from[0])]);
        assert(tag(tname, Seq::<PxQt>::empty().take(0)) =~= Seq::<LevelView>::empty());
    } else {
        let m2 = min_nat((budget - 1) as nat, rest.len());
        assert(m == m2 + 1);
        assert(tag(fname, from.take(m as int)) =~= seq![level_of(fname, from[0])] + tag(
            fname,
            rest.take(m2 as int),
        ));
    }
}

proof fn lemma_merge_to_only(fname: Seq<char>, tname: Seq<char>, to: Seq<PxQt>, budget: nat, bid: bool)
    requires
        budget > 0,
        to.len() > 0,
    ensures
        merge_levels(fname, Seq::empty(), tname, to, budget, bid) == seq![level_of(tname, to[0])]
            + merge_levels(fname, Seq::empty(), tname, to.drop_first(), (budget - 1) as nat, bid),
{
    let m = min_nat(budget, to.len());
    let rest = to.drop_first();
    if budget - 1 == 0 {
        assert(tag(tname, to.take(m as int)) =~= seq![level_of(tname, to[0])]);
    } else {
        let m2 = min_nat((budget - 1) as nat, rest.len());
        assert(m == m2 + 1);
        assert(tag(tname, to.take(m as int)) =~= seq![level_of(tname, to[0])] + tag(
            tname,
            rest.take(m2 as int),
        ));
    }
}

proof fn lemma_levels_view_push(v: Seq<ExchangePriceLevel>, x: ExchangePriceLevel)
    ensures
        levels_view(v.push(x)) == levels_view(v).push(x@),
{
    assert(levels_view(v.push(x)) =~= levels_view(v).push(x@));
}

/// Merges ladder `from_level` of `from_exchange` with ladder `to_level` of
/// `to_exchange` into `merged`, bid side when `bid` holds, ask side otherwise.
pub fn merge_ladders(
    top_n: usize,
    from_exchange: &str,
    from_level: &PxQtLadder,
    to_exchange: &str,
    to_level: &PxQtLadder,
    merged: &mut Vec<ExchangePriceLevel>,
    bid: bool,
)
    requires
        merge_defined(from_level@, to_level@, top_n as nat, bid),
    ensures
        levels_view(final(merged)@) == merge_levels(
            from_exchange@,
            from_level@,
            to_exchange@,
            to_level@,
            top_n as nat,
            bid,
        ),
{
    let ghost fname = from_exchange@;
    let ghost tname = to_exchange@;
    let ghost goal = merge_levels(fname, from_level@, tname, to_level@, top_n as nat, bid);
    merged.clear();
    let mut i: usize = 0;
    let mut j: usize = 0;
    let mut k: usize = 0;
    let n_i = from_level.len();
    let n_j = to_level.len();
    assert(from_level@.skip(0) =~= from_level@);
    assert(to_level@.skip(0) =~= to_level@);
    assert(levels_view(merged@) =~= Seq::<LevelView>::empty());
    assert(levels_view(merged@) + goal =~= goal);
    while i < n_i && j < n_j && k < top_n
        invariant
            i <= n_i == from_level.len(),
            j <= n_j == to_level.len(),
            k <= top_n,
            fname == from_exchange@,
            tname == to_exchange@,
            goal == merge_levels(fname, from_level@, tname, to_level@, top_n as nat, bid),
            levels_view(merged@) + merge_levels(
                fname,
                from_level@.skip(i as int),
                tname,
                to_level@.skip(j as int),
                (top_n - k) as nat,
                bid,
            ) == goal,
            merge_defined(
                from_level@.skip(i as int),
                to_level@.skip(j as int),
                (top_n - k) as nat,
                bid,
            ),
        decreases n_i - i + n_j - j,
    {
        let ghost f = from_level@.skip(i as int);
        let ghost t = to_level@.skip(j as int);
        let ghost rest_goal = merge_levels(fname, f, tname, t, (top_n - k) as nat, bid);
        assert(f[0] == from_level@[i as int]);
        assert(t[0] == to_level@[j as int]);
        assert(f.drop_first() =~= from_level@.skip(i + 1));
        assert(t.drop_first() =~= to_level@.skip(j + 1));
        let c = px_text_order_exec(from_level[i][0].as_str(), to_level[j][0].as_str());
        let greater_first = if bid {
            c > 0
        } else {
            c < 0
        };
        if c == 0 {
            let ghost before = merged@;
            let lv = make_exchange_price_level(from_exchange.to_owned(), &from_level[i]);
            merged.push(lv);
            proof {
                lemma_levels_view_push(before, lv);
            }
            i += 1;
            k += 1;
            if k < top_n {
                let ghost before2 = merged@;
                let lv2 = make_exchange_price_level(to_exchange.to_owned(), &to_level[j]);
                merged.push(lv2);
                proof {
                    lemma_levels_view_push(before2, lv2);
                }
                j += 1;
                k += 1;
                assert(levels_view(merged@) + merge_levels(
                    fname,
                    from_level@.skip(i as int),
                    tname,
                    to_level@.skip(j as int),
                    (top_n - k) as nat,
                    bid,
                ) =~= goal);
            } else {
                assert(levels_view(merged@) + merge_levels(
                    fname,
                    from_level@.skip(i as int),
                    tname,
                    to_level@.skip(j as int),
                    (top_n - k) as nat,
                    bid,
                ) =~= goal);
            }
        } else if greater_first {
            let ghost before = merged@;
            let lv = make_exchange_price_level(from_exchange.to_owned(), &from_level[i]);
            merged.push(lv);
            proof {
                lemma_levels_view_push(before, lv);
            }
            i += 1;
            k += 1;
            assert(levels_view(merged@) + merge_levels(
                fname,
                from_level@.skip(i as int),
                tname,
                to_level@.skip(j as int),
                (top_n - k) as nat,
                bid,
            ) =~= goal);
        } else {
            let ghost before = merged@;
            let lv = make_exchange_price_level(to_exchange.to_owned(), &to_level[j]);
            merged.push(lv);
            proof {
                lemma_levels_view_push(before, lv);
            }
            j += 1;
            k += 1;
            assert(levels_view(merged@) + merge_levels(
                fname,
                from_level@.skip(i as int),
                tname,
                to_level@.skip(j as int),
                (top_n - k) as nat,
                bid,
            ) =~= goal);
        }
    }
    while i < n_i && k < top_n
        invariant
            i <= n_i == from_level.len(),
            j <= n_j == to_level.len(),
            k <= top_n,
            k < top_n && i < n_i ==> j == n_j,
            fname == from_exchange@,
            tname == to_exchange@,
            levels_view(merged@) + merge_levels(
                fname,
                from_level@.skip(i as int),
                tname,
                to_level@.skip(j as int),
                (top_n - k) as nat,
                bid,
            ) == goal,
        decreases n_i - i,
    {
        let ghost f = from_level@.skip(i as int);
        assert(to_level@.skip(j as int) =~= Seq::<PxQt>::empty());
        proof {
            lemma_merge_from_only(fname, f, tname, (top_n - k) as nat, bid);
        }
        assert(f.drop_first() =~= from_level@.skip(i + 1));
        assert(f[0] == from_level@[i as int]);
        let ghost before = merged@;
        let lv = make_exchange_price_level(from_exchange.to_owned(), &from_level[i]);
        merged.push(lv);
        proof {
            lemma_levels_view_push(before, lv);
        }
        i += 1;
        k += 1;
        assert(levels_view(merged@) + merge_levels(
            fname,
            from_level@.skip(i as int),
            tname,
            to_level@.skip(j as int),
            (top_n - k) as nat,
            bid,
        ) =~= goal);
    }
    while j < n_j && k < top_n
        invariant
            i <= n_i == from_level.len(),
            j <= n_j == to_level.len(),
            k <= top_n,
            k < top_n ==> i == n_i,
            fname == from_exchange@,
            tname == to_exchange@,
            levels_view(merged@) + merge_levels(
                fname,
                from_level@.skip(i as int),
                tname,
                to_level@.skip(j as int),
                (top_n - k) as nat,
                bid,
            ) == goal,
        decreases n_j - j,
    {
        let ghost t = to_level@.skip(j as int);
        assert(from_level@.skip(i as int) =~= Seq::<PxQt>::empty());
        proof {
            lemma_merge_to_only(fname, tname, t, (top_n - k) as nat, bid);
        }
        assert(t.drop_first() =~= to_level@.skip(j + 1));
        assert(t[0] == to_level@[j as int]);
        let ghost before = merged@;
        let lv = make_exchange_price_level(to_exchange.to_owned(), &to_level[j]);
        merged.push(lv);
        proof {
            lemma_levels_view_push(before, lv);
        }
        j += 1;
        k += 1;
        assert(levels_view(merged@) + merge_levels(
            fname,
            from_level@.skip(i as int),
            tname,
            to_level@.skip(j as int),
            (top_n - k) as nat,
            bid,
        ) =~= goal);
    }
    // Both ladders used up, or `top_n` levels taken: nothing is left to merge.
    if k < top_n {
        assert(from_level@.skip(i as int) =~= Seq::<PxQt>::empty());
        assert(to_level@.skip(j as int) =~= Seq::<PxQt>::empty());
        assert(tag(tname, Seq::<PxQt>::empty().take(0)) =~= Seq::<LevelView>::empty());
    }
    assert(levels_view(merged@) =~= goal);
}

/// Whether merging `from_level` with `to_level` makes only comparisons between
/// numbers (the condition under which the merge is defined).
pub fn merge_is_defined(top_n: usize, from_level: &PxQtLadder, to_level: &PxQtLadder, bid: bool) -> (r: bool)
    ensures
        r == merge_defined(from_level@, to_level@, top_n as nat, bid),
{
    let mut i: usize = 0;
    let mut j: usize = 0;
    let mut k: usize = 0;
    let n_i = from_level.len();
    let n_j = to_level.len();
    assert(from_level@.skip(0) =~= from_level@);
    assert(to_level@.skip(0) =~= to_level@);
    while i < n_i && j < n_j && k < top_n
        invariant
            i <= n_i == from_level.len(),
            j <= n_j == to_level.len(),
            k <= top_n,
            merge_defined(from_level@, to_level@, top_n as nat, bid) == merge_defined(
                from_level@.skip(i as int),
                to_level@.skip(j as int),
                (top_n - k) as nat,
                bid,
            ),
        decreases n_i - i + n_j - j,
    {
        let ghost f = from_level@.skip(i as int);
        let ghost t = to_level@.skip(j as int);
        assert(f[0] == from_level@[i as int]);
        assert(t[0] == to_level@[j as int]);
        assert(f.drop_first() =~= from_level@.skip(i + 1));
        assert(t.drop_first() =~= to_level@.skip(j + 1));
        if !is_number_text(from_level[i][0].as_str()) || !is_number_text(to_level[j][0].as_str()) {
            return false;
        }
        let c = px_text_order_exec(from_level[i][0].as_str(), to_level[j][0].as_str());
        let first = if bid {
            c > 0
        } else {
            c < 0
        };
        if c == 0 {
            if k + 1 < top_n {
                i += 1;
                j += 1;
                k += 2;
            } else {
                return true;
            }
        } else if first {
            i += 1;
            k += 1;
        } else {
            j += 1;
            k += 1;
        }
    }
    true
}

/// The merging worker: the number of levels it keeps, the names of the two
/// books and the channels on which their updates arrive.
pub struct Merger {
    pub top_n: usize,
    pub book_name_a: String,
    pub book_name_b: String,
    rx_a: PxQtLadderReceiver,
    rx_b: PxQtLadderReceiver,
}

impl Merger {
    /// The number of levels kept.
    pub closed spec fn levels_kept(&self) -> usize {
        self.top_n
    }

    pub closed spec fn name_a(&self) -> String {
        self.book_name_a
    }

    pub closed spec fn name_b(&self) -> String {
        self.book_name_b
    }

    pub closed spec fn receiver_a(&self) -> PxQtLadderReceiver {
        self.rx_a
    }

    pub closed spec fn receiver_b(&self) -> PxQtLadderReceiver {
        self.rx_b
    }

    pub fn new(
        top_n: usize,
        name_a: String,
        rx_a: PxQtLadderReceiver,
        name_b: String,
        rx_b: PxQtLadderReceiver,
    ) -> (r: Self)
        ensures
            r.levels_kept() == top_n,
            r.name_a() == name_a,
            r.name_b() == name_b,
            r.receiver_a() == rx_a,
            r.receiver_b() == rx_b,
    {
        Merger { top_n, book_name_a: name_a, book_name_b: name_b, rx_a, rx_b }
    }

    /// Takes the worker apart: `(top_n, name_a, name_b, rx_a, rx_b)`.
    pub fn into_parts(self) -> (r: (usize, String, String, PxQtLadderReceiver, PxQtLadderReceiver))
        ensures
            r == (self.levels_kept(), self.name_a(), self.name_b(), self.receiver_a(), self.receiver_b()),
    {
        (self.top_n, self.book_name_a, self.book_name_b, self.rx_a, self.rx_b)
    }

    /// Merges two bid ladders (higher prices first) into `merged_bids`.
    pub fn merge_bids(
        &mut self,
        from_exchange: &str,
        from_level: &PxQtLadder,
        to_exchange: &str,
        to_level: &PxQtLadder,
        merged_bids: &mut Vec<ExchangePriceLevel>,
    )
        requires
            merge_defined(from_level@, to_level@, old(self).levels_kept() as nat, true),
        ensures
            *final(self) == *old(self),
            levels_view(final(merged_bids)@) == merge_levels(
                from_exchange@,
                from_level@,
                to_exchange@,
                to_level@,
                old(self).levels_kept() as nat,
                true,
            ),
    {
        merge_ladders(self.top_n, from_exchange, from_level, to_exchange, to_level, merged_bids, true);
    }

    /// Merges two ask ladders (lower prices first) into `merged_asks`.
    pub fn merge_asks(
        &mut self,
        from_exchange: &str,
        from_level: &PxQtLadder,
        to_exchange: &str,
        to_level: &PxQtLadder,
        merged_asks: &mut Vec<ExchangePriceLevel>,
    )
        requires
            merge_defined(from_level@, to_level@, old(self).levels_kept() as nat, false),
        ensures
            *final(self) == *old(self),
            levels_view(final(merged_asks)@) == merge_levels(
                from_exchange@,
                from_level@,
                to_exchange@,
                to_level@,
                old(self).levels_kept() as nat,
                false,
            ),
    {
        merge_ladders(self.top_n, from_exchange, from_level, to_exchange, to_level, merged_asks, false);
    }
}

/// Which of the two books an update comes from.
#[derive(Debug, Clone, Copy, PartialEq, Eq)]
pub enum BookSide {
    A,
    B,
}

/// The state of the merging loop: the last ladders received from each book and
/// the merged bids and asks.
pub struct MergeBook {
    pub last_bids_a: PxQtLadder,
    pub last_asks_a: PxQtLadder,
    pub last_bids_b: PxQtLadder,
    pub last_asks_b: PxQtLadder,
    pub merged_bids: Vec<ExchangePriceLevel>,
    pub merged_asks: Vec<ExchangePriceLevel>,
}

impl MergeBook {
    /// No book received yet, nothing merged.
    pub fn new() -> (r: Self)
        ensures
            r.last_bids_a@ == Seq::<PxQt>::empty(),
            r.last_asks_a@ == Seq::<PxQt>::empty(),
            r.last_bids_b@ == Seq::<PxQt>::empty(),
            r.last_asks_b@ == Seq::<PxQt>::empty(),
            r.merged_bids@ == Seq::<ExchangePriceLevel>::empty(),
            r.merged_asks@ == Seq::<ExchangePriceLevel>::empty(),
    {
        MergeBook {
            last_bids_a: Vec::new(),
            last_asks_a: Vec::new(),
            last_bids_b: Vec::new(),
            last_asks_b: Vec::new(),
            merged_bids: Vec::new(),
            merged_asks: Vec::new(),
        }
    }

    /// The last ladders of the other book than `side`.
    pub open spec fn other_bids(&self, side: BookSide) -> Seq<PxQt> {
        match side {
            BookSide::A => self.last_bids_b@,
            BookSide::B => self.last_bids_a@,
        }
    }

    pub open spec fn other_asks(&self, side: BookSide) -> Seq<PxQt> {
        match side {
            BookSide::A => self.last_asks_b@,
            BookSide::B => self.last_asks_a@,
        }
    }

    /// Whether the update `(bids, asks)` from `side` can be merged with the
    /// other book's last ladders (every comparison is between numbers).
    pub fn update_is_defined(&self, top_n: usize, side: BookSide, bids: &PxQtLadder, asks: &PxQtLadder) -> (r: bool)
        ensures
            r == (merge_defined(bids@, self.other_bids(side), top_n as nat, true) && merge_defined(
                asks@,
                self.other_asks(side),
                top_n as nat,
                false,
            )),
    {
        match side {
            BookSide::A => merge_is_defined(top_n, bids, &self.last_bids_b, true) && merge_is_defined(
                top_n,
                asks,
                &self.last_asks_b,
                false,
            ),
            BookSide::B => merge_is_defined(top_n, bids, &self.last_bids_a, true) && merge_is_defined(
                top_n,
                asks,
                &self.last_asks_a,
                false,
            ),
        }
    }

    /// Takes a new `(bids, asks)` update of book `side` (named `name`; the other
    /// book is named `other_name`): it replaces that book's last ladders, and the
    /// merged book becomes the merge of the updated book (first on ties) with the
    /// other book's last ladders.
    pub fn update(
        &mut self,
        top_n: usize,
        side: BookSide,
        name: &str,
        other_name: &str,
        bids: PxQtLadder,
        asks: PxQtLadder,
    )
        requires
            merge_defined(bids@, old(self).other_bids(side), top_n as nat, true),
            merge_defined(asks@, old(self).other_asks(side), top_n as nat, false),
        ensures
            side == BookSide::A ==> {
                &&& final(self).last_bids_a@ == bids@
                &&& final(self).last_asks_a@ == asks@
                &&& final(self).last_bids_b@ == old(self).last_bids_b@
                &&& final(self).last_asks_b@ == old(self).last_asks_b@
            },
            side == BookSide::B ==> {
                &&& final(self).last_bids_b@ == bids@
                &&& final(self).last_asks_b@ == asks@
                &&& final(self).last_bids_a@ == old(self).last_bids_a@
                &&& final(self).last_asks_a@ == old(self).last_asks_a@
            },
            levels_view(final(self).merged_bids@) == merge_levels(
                name@,
                bids@,
                other_name@,
                old(self).other_bids(side),
                top_n as nat,
                true,
            ),
            levels_view(final(self).merged_asks@) == merge_levels(
                name@,
                asks@,
                other_name@,
                old(self).other_asks(side),
                top_n as nat,
                false,
            ),
    {
        match side {
            BookSide::A => {
                self.last_bids_a = bids;
                self.last_asks_a = asks;
                merge_ladders(top_n, name, &self.last_bids_a, other_name, &self.last_bids_b, &mut self.merged_bids, true);
                merge_ladders(top_n, name, &self.last_asks_a, other_name, &self.last_asks_b, &mut self.merged_asks, false);
            },
            BookSide::B => {
                self.last_bids_b = bids;
                self.last_asks_b = asks;
                merge_ladders(top_n, name, &self.last_bids_b, other_name, &self.last_bids_a, &mut self.merged_bids, true);
                merge_ladders(top_n, name, &self.last_asks_b, other_name, &self.last_asks_a, &mut self.merged_asks, false);
            },
        }
    }
}

} // verus!
