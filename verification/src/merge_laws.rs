//! What the merge of two books guarantees: how many levels it keeps, that it
//! is an interleaving of the two books' best levels, that it stays in price
//! order, and that no level left out is better than a level kept.
use vstd::prelude::*;
use crate::book_worker::{merge_levels, px_of, first_goes_first, tag, min_nat, BookSide, MergeBook};
use crate::data_types::levels_view;
use crate::data_types::{PxQt, LevelView, level_of, px_or_zero};
use crate::decimal::{is_ordered_px, is_px_text, px_text_order, law_px_order_total_preorder};

verus! {

/// Price `a` may stand before price `b` on the side (`bid`: higher first,
/// otherwise lower first).
pub open spec fn goes_before(bid: bool, a: Seq<char>, b: Seq<char>) -> bool {
    if bid {
        px_text_order(a, b) >= 0
    } else {
        px_text_order(a, b) <= 0
    }
}

/// Every price of the ladder is a number other than not-a-number.
pub open spec fn ladder_well_formed(l: Seq<PxQt>) -> bool {
    forall|i: int| 0 <= i < l.len() ==> #[trigger] is_ordered_px(px_of(l[i]))
}

/// The ladder is in price order for its side.
pub open spec fn ladder_sorted(l: Seq<PxQt>, bid: bool) -> bool {
    forall|i: int, j: int|
        0 <= i < j < l.len() ==> goes_before(bid, #[trigger] px_of(l[i]), #[trigger] px_of(l[j]))
}

/// The levels are in price order for their side.
pub open spec fn levels_sorted(v: Seq<LevelView>, bid: bool) -> bool {
    forall|i: int, j: int|
        0 <= i < j < v.len() ==> goes_before(bid, #[trigger] v[i].price, #[trigger] v[j].price)
}

/// `out` is `a` and `b` interleaved: each keeps its order, nothing is added or
/// lost.
pub open spec fn is_interleaving(out: Seq<LevelView>, a: Seq<LevelView>, b: Seq<LevelView>) -> bool
    decreases out.len(),
{
    if out.len() == 0 {
        a.len() == 0 && b.len() == 0
    } else {
        ||| (a.len() > 0 && out[0] == a[0] && is_interleaving(out.drop_first(), a.drop_first(), b))
        ||| (b.len() > 0 && out[0] == b[0] && is_interleaving(out.drop_first(), a, b.drop_first()))
    }
}

/// How many levels the merge takes from each of the two ladders.
pub open spec fn merge_taken(from: Seq<PxQt>, to: Seq<PxQt>, budget: nat, bid: bool) -> (nat, nat)
    decreases from.len() + to.len(),
{
    if budget == 0 {
        (0, 0)
    } else if from.len() == 0 {
        (0, min_nat(budget, to.len()))
    } else if to.len() == 0 {
        (min_nat(budget, from.len()), 0)
    } else {
        let c = px_text_order(px_of(from[0]), px_of(to[0]));
        if c == 0 {
            if budget >= 2 {
                let r = merge_taken(from.drop_first(), to.drop_first(), (budget - 2) as nat, bid);
                (r.0 + 1, r.1 + 1)
            } else {
                (1, 0)
            }
        } else if first_goes_first(bid, c) {
            let r = merge_taken(from.drop_first(), to, (budget - 1) as nat, bid);
            (r.0 + 1, r.1)
        } else {
            let r = merge_taken(from, to.drop_first(), (budget - 1) as nat, bid);
            (r.0, r.1 + 1)
        }
    }
}

/// The merge keeps `budget` levels, or all levels of both ladders when they
/// hold fewer.
pub proof fn law_merge_length(
    fname: Seq<char>,
    from: Seq<PxQt>,
    tname: Seq<char>,
    to: Seq<PxQt>,
    budget: nat,
    bid: bool,
)
    ensures
        merge_levels(fname, from, tname, to, budget, bid).len() == min_nat(
            budget,
            from.len() + to.len(),
        ),
    decreases from.len() + to.len(),
{
    if budget == 0 || from.len() == 0 || to.len() == 0 {
    } else {
        let c = px_text_order(px_of(from[0]), px_of(to[0]));
        if c == 0 {
            if budget >= 2 {
                law_merge_length(fname, from.drop_first(), tname, to.drop_first(), (budget - 2) as nat, bid);
            }
        } else if first_goes_first(bid, c) {
            law_merge_length(fname, from.drop_first(), tname, to, (budget - 1) as nat, bid);
        } else {
            law_merge_length(fname, from, tname, to.drop_first(), (budget - 1) as nat, bid);
        }
    }
}

proof fn lemma_interleave_left(s: Seq<LevelView>)
    ensures
        is_interleaving(s, s, Seq::empty()),
    decreases s.len(),
{
    if s.len() > 0 {
        lemma_interleave_left(s.drop_first());
    }
}

proof fn lemma_interleave_right(s: Seq<LevelView>)
    ensures
        is_interleaving(s, Seq::empty(), s),
    decreases s.len(),
{
    if s.len() > 0 {
        lemma_interleave_right(s.drop_first());
    }
}

proof fn lemma_tag_take_drop(name: Seq<char>, l: Seq<PxQt>, n: int)
    requires
        0 < n <= l.len(),
    ensures
        tag(name, l.take(n)).len() > 0,
        tag(name, l.take(n))[0] == level_of(name, l[0]),
        tag(name, l.take(n)).drop_first() == tag(name, l.drop_first().take(n - 1)),
{
    assert(tag(name, l.take(n)).drop_first() =~= tag(name, l.drop_first().take(n - 1)));
}

/// The merge is an interleaving of the best levels of the two ladders: the
/// first `merge_taken(..).0` levels of `from` and the first `merge_taken(..).1`
/// levels of `to`, each in its own order.
pub proof fn law_merge_interleaves(
    fname: Seq<char>,
    from: Seq<PxQt>,
    tname: Seq<char>,
    to: Seq<PxQt>,
    budget: nat,
    bid: bool,
)
    ensures
        merge_taken(from, to, budget, bid).0 <= from.len(),
        merge_taken(from, to, budget, bid).1 <= to.len(),
        is_interleaving(
            merge_levels(fname, from, tname, to, budget, bid),
            tag(fname, from.take(merge_taken(from, to, budget, bid).0 as int)),
            tag(tname, to.take(merge_taken(from, to, budget, bid).1 as int)),
        ),
    decreases from.len() + to.len(),
{
    let out = merge_levels(fname, from, tname, to, budget, bid);
    let tk = merge_taken(from, to, budget, bid);
    let a = tag(fname, from.take(tk.0 as int));
    let b = tag(tname, to.take(tk.1 as int));
    if budget == 0 {
        assert(a =~= Seq::<LevelView>::empty());
        assert(b =~= Seq::<LevelView>::empty());
    } else if from.len() == 0 {
        assert(a =~= Seq::<LevelView>::empty());
        lemma_interleave_right(out);
        assert(is_interleaving(out, a, b));
    } else if to.len() == 0 {
        assert(b =~= Seq::<LevelView>::empty());
        lemma_interleave_left(out);
        assert(is_interleaving(out, a, b));
    } else {
        let c = px_text_order(px_of(from[0]), px_of(to[0]));
        if c == 0 {
            if budget >= 2 {
                let f2 = from.drop_first();
                let t2 = to.drop_first();
                let r = merge_taken(f2, t2, (budget - 2) as nat, bid);
                let rest = merge_levels(fname, f2, tname, t2, (budget - 2) as nat, bid);
                law_merge_interleaves(fname, f2, tname, t2, (budget - 2) as nat, bid);
                lemma_tag_take_drop(fname, from, tk.0 as int);
                lemma_tag_take_drop(tname, to, tk.1 as int);
                assert(out.drop_first().drop_first() =~= rest);
                assert(out.drop_first()[0] == b[0]);
                assert(is_interleaving(out.drop_first(), a.drop_first(), b));
                assert(is_interleaving(out, a, b));
            } else {
                lemma_tag_take_drop(fname, from, 1);
                assert(b =~= Seq::<LevelView>::empty());
                assert(out.drop_first() =~= Seq::<LevelView>::empty());
                assert(a.drop_first() =~= Seq::<LevelView>::empty());
                assert(out[0] == a[0]);
                assert(is_interleaving(out.drop_first(), a.drop_first(), b));
                assert(is_interleaving(out, a, b));
            }
        } else if first_goes_first(bid, c) {
            let f2 = from.drop_first();
            let rest = merge_levels(fname, f2, tname, to, (budget - 1) as nat, bid);
            law_merge_interleaves(fname, f2, tname, to, (budget - 1) as nat, bid);
            lemma_tag_take_drop(fname, from, tk.0 as int);
            assert(out.drop_first() =~= rest);
            assert(is_interleaving(out, a, b));
        } else {
            let t2 = to.drop_first();
            let rest = merge_levels(fname, from, tname, t2, (budget - 1) as nat, bid);
            law_merge_interleaves(fname, from, tname, t2, (budget - 1) as nat, bid);
            lemma_tag_take_drop(tname, to, tk.1 as int);
            assert(out.drop_first() =~= rest);
            assert(is_interleaving(out, a, b));
        }
    }
}

proof fn lemma_before_trans(bid: bool, a: Seq<char>, b: Seq<char>, c: Seq<char>)
    requires
        is_ordered_px(a),
        is_ordered_px(b),
        is_ordered_px(c),
        goes_before(bid, a, b),
        goes_before(bid, b, c),
    ensures
        goes_before(bid, a, c),
{
    law_px_order_total_preorder(a, b, c);
    law_px_order_total_preorder(c, b, a);
    law_px_order_total_preorder(b, a, c);
    law_px_order_total_preorder(a, c, b);
}

proof fn lemma_before_refl(bid: bool, a: Seq<char>)
    requires
        is_ordered_px(a),
    ensures
        goes_before(bid, a, a),
{
    law_px_order_total_preorder(a, a, a);
}

/// The price of the level that a well-formed pair becomes is the pair's price.
proof fn lemma_drop_first_wf(l: Seq<PxQt>, bid: bool)
    requires
        l.len() > 0,
        ladder_well_formed(l),
        ladder_sorted(l, bid),
    ensures
        ladder_well_formed(l.drop_first()),
        ladder_sorted(l.drop_first(), bid),
{
    let d = l.drop_first();
    assert forall|i: int| 0 <= i < d.len() implies #[trigger] is_ordered_px(px_of(d[i])) by {
        assert(d[i] == l[i + 1]);
    }
    assert forall|i: int, j: int| 0 <= i < j < d.len() implies goes_before(
        bid,
        #[trigger] px_of(d[i]),
        #[trigger] px_of(d[j]),
    ) by {
        assert(d[i] == l[i + 1]);
        assert(d[j] == l[j + 1]);
        assert(px_of(l[i + 1]) == px_of(d[i]));
    }
}

/// A price that goes before every level of both ladders goes before every
/// level of their merge.
proof fn lemma_merge_bounded(
    x: Seq<char>,
    fname: Seq<char>,
    from: Seq<PxQt>,
    tname: Seq<char>,
    to: Seq<PxQt>,
    budget: nat,
    bid: bool,
)
    requires
        ladder_well_formed(from),
        ladder_well_formed(to),
        forall|i: int| 0 <= i < from.len() ==> goes_before(bid, x, #[trigger] px_of(from[i])),
        forall|j: int| 0 <= j < to.len() ==> goes_before(bid, x, #[trigger] px_of(to[j])),
    ensures
        forall|k: int|
            0 <= k < merge_levels(fname, from, tname, to, budget, bid).len() ==> goes_before(
                bid,
                x,
                #[trigger] merge_levels(fname, from, tname, to, budget, bid)[k].price,
            ),
    decreases from.len() + to.len(),
{
    let out = merge_levels(fname, from, tname, to, budget, bid);
    if budget == 0 {
    } else if from.len() == 0 {
        assert forall|k: int| 0 <= k < out.len() implies goes_before(bid, x, #[trigger] out[k].price) by {
            assert(out[k] == level_of(tname, to[k]));
            assert(is_ordered_px(px_of(to[k])));
        }
    } else if to.len() == 0 {
        assert forall|k: int| 0 <= k < out.len() implies goes_before(bid, x, #[trigger] out[k].price) by {
            assert(out[k] == level_of(fname, from[k]));
            assert(is_ordered_px(px_of(from[k])));
        }
    } else {
        let f2 = from.drop_first();
        let t2 = to.drop_first();
        assert(is_ordered_px(px_of(from[0])));
        assert(is_ordered_px(px_of(to[0])));
        assert(goes_before(bid, x, px_of(from[0])));
        assert(goes_before(bid, x, px_of(to[0])));
        assert forall|i: int| 0 <= i < f2.len() implies #[trigger] is_ordered_px(px_of(f2[i])) by {
            assert(f2[i] == from[i + 1]);
        }
        assert forall|i: int| 0 <= i < f2.len() implies goes_before(bid, x, #[trigger] px_of(f2[i])) by {
            assert(f2[i] == from[i + 1]);
        }
        assert forall|i: int| 0 <= i < t2.len() implies #[trigger] is_ordered_px(px_of(t2[i])) by {
            assert(t2[i] == to[i + 1]);
        }
        assert forall|i: int| 0 <= i < t2.len() implies goes_before(bid, x, #[trigger] px_of(t2[i])) by {
            assert(t2[i] == to[i + 1]);
        }
        let c = px_text_order(px_of(from[0]), px_of(to[0]));
        if c == 0 {
            if budget >= 2 {
                let rest = merge_levels(fname, f2, tname, t2, (budget - 2) as nat, bid);
                lemma_merge_bounded(x, fname, f2, tname, t2, (budget - 2) as nat, bid);
                assert forall|k: int| 0 <= k < out.len() implies goes_before(
                    bid,
                    x,
                    #[trigger] out[k].price,
                ) by {
                    if k >= 2 {
                        assert(out[k] == rest[k - 2]);
                    }
                }
            }
        } else if first_goes_first(bid, c) {
            let rest = merge_levels(fname, f2, tname, to, (budget - 1) as nat, bid);
            lemma_merge_bounded(x, fname, f2, tname, to, (budget - 1) as nat, bid);
            assert forall|k: int| 0 <= k < out.len() implies goes_before(
                bid,
                x,
                #[trigger] out[k].price,
            ) by {
                if k >= 1 {
                    assert(out[k] == rest[k - 1]);
                }
            }
        } else {
            let rest = merge_levels(fname, from, tname, t2, (budget - 1) as nat, bid);
            lemma_merge_bounded(x, fname, from, tname, t2, (budget - 1) as nat, bid);
            assert forall|k: int| 0 <= k < out.len() implies goes_before(
                bid,
                x,
                #[trigger] out[k].price,
            ) by {
                if k >= 1 {
                    assert(out[k] == rest[k - 1]);
                }
            }
        }
    }
}

/// When both ladders are in price order, the head of the one that the merge
/// takes first goes before every level of both ladders.
proof fn lemma_head_bounds(bid: bool, first: Seq<PxQt>, other: Seq<PxQt>)
    requires
        first.len() > 0,
        other.len() > 0,
        ladder_well_formed(first),
        ladder_well_formed(other),
        ladder_sorted(first, bid),
        ladder_sorted(other, bid),
        goes_before(bid, px_of(first[0]), px_of(other[0])),
    ensures
        forall|i: int| 0 <= i < first.len() ==> goes_before(bid, px_of(first[0]), #[trigger] px_of(first[i])),
        forall|j: int| 0 <= j < other.len() ==> goes_before(bid, px_of(first[0]), #[trigger] px_of(other[j])),
{
    let h = px_of(first[0]);
    assert(is_ordered_px(h));
    assert(is_ordered_px(px_of(other[0])));
    assert forall|i: int| 0 <= i < first.len() implies goes_before(bid, h, #[trigger] px_of(first[i])) by {
        if i == 0 {
            lemma_before_refl(bid, h);
        }
    }
    assert forall|j: int| 0 <= j < other.len() implies goes_before(bid, h, #[trigger] px_of(other[j])) by {
        if j > 0 {
            assert(is_ordered_px(px_of(other[j])));
            lemma_before_trans(bid, h, px_of(other[0]), px_of(other[j]));
        }
    }
}

/// Merging two ladders that are in price order gives levels in price order.
pub proof fn law_merge_sorted(
    fname: Seq<char>,
    from: Seq<PxQt>,
    tname: Seq<char>,
    to: Seq<PxQt>,
    budget: nat,
    bid: bool,
)
    requires
        ladder_well_formed(from),
        ladder_well_formed(to),
        ladder_sorted(from, bid),
        ladder_sorted(to, bid),
    ensures
        levels_sorted(merge_levels(fname, from, tname, to, budget, bid), bid),
    decreases from.len() + to.len(),
{
    let out = merge_levels(fname, from, tname, to, budget, bid);
    if budget == 0 {
    } else if from.len() == 0 {
        assert forall|i: int, j: int| 0 <= i < j < out.len() implies goes_before(
            bid,
            #[trigger] out[i].price,
            #[trigger] out[j].price,
        ) by {
            assert(out[i] == level_of(tname, to[i]));
            assert(out[j] == level_of(tname, to[j]));
            assert(is_ordered_px(px_of(to[i])));
            assert(is_ordered_px(px_of(to[j])));
        }
    } else if to.len() == 0 {
        assert forall|i: int, j: int| 0 <= i < j < out.len() implies goes_before(
            bid,
            #[trigger] out[i].price,
            #[trigger] out[j].price,
        ) by {
            assert(out[i] == level_of(fname, from[i]));
            assert(out[j] == level_of(fname, from[j]));
            assert(is_ordered_px(px_of(from[i])));
            assert(is_ordered_px(px_of(from[j])));
        }
    } else {
        let f2 = from.drop_first();
        let t2 = to.drop_first();
        let hf = px_of(from[0]);
        let ht = px_of(to[0]);
        assert(is_ordered_px(hf));
        assert(is_ordered_px(ht));
        lemma_drop_first_wf(from, bid);
        lemma_drop_first_wf(to, bid);
        let c = px_text_order(hf, ht);
        law_px_order_total_preorder(hf, ht, hf);
        if c == 0 {
            lemma_head_bounds(bid, from, to);
            lemma_head_bounds(bid, to, from);
            if budget >= 2 {
                let rest = merge_levels(fname, f2, tname, t2, (budget - 2) as nat, bid);
                law_merge_sorted(fname, f2, tname, t2, (budget - 2) as nat, bid);
                assert forall|i: int| 0 <= i < f2.len() implies goes_before(bid, hf, #[trigger] px_of(f2[i])) by {
                    assert(f2[i] == from[i + 1]);
                }
                assert forall|i: int| 0 <= i < t2.len() implies goes_before(bid, hf, #[trigger] px_of(t2[i])) by {
                    assert(t2[i] == to[i + 1]);
                }
                lemma_merge_bounded(hf, fname, f2, tname, t2, (budget - 2) as nat, bid);
                assert forall|i: int| 0 <= i < f2.len() implies goes_before(bid, ht, #[trigger] px_of(f2[i])) by {
                    assert(f2[i] == from[i + 1]);
                }
                assert forall|i: int| 0 <= i < t2.len() implies goes_before(bid, ht, #[trigger] px_of(t2[i])) by {
                    assert(t2[i] == to[i + 1]);
                }
                lemma_merge_bounded(ht, fname, f2, tname, t2, (budget - 2) as nat, bid);
                assert(out[0].price == hf);
                assert(out[1].price == ht);
                assert forall|i: int, j: int| 0 <= i < j < out.len() implies goes_before(
                    bid,
                    #[trigger] out[i].price,
                    #[trigger] out[j].price,
                ) by {
                    if i >= 2 {
                        assert(out[i] == rest[i - 2]);
                        assert(out[j] == rest[j - 2]);
                    } else if j >= 2 {
                        assert(out[j] == rest[j - 2]);
                    }
                }
            }
        } else if first_goes_first(bid, c) {
            lemma_head_bounds(bid, from, to);
            let rest = merge_levels(fname, f2, tname, to, (budget - 1) as nat, bid);
            law_merge_sorted(fname, f2, tname, to, (budget - 1) as nat, bid);
            assert forall|i: int| 0 <= i < f2.len() implies goes_before(bid, hf, #[trigger] px_of(f2[i])) by {
                assert(f2[i] == from[i + 1]);
            }
            lemma_merge_bounded(hf, fname, f2, tname, to, (budget - 1) as nat, bid);
            assert(out[0].price == hf);
            assert forall|i: int, j: int| 0 <= i < j < out.len() implies goes_before(
                bid,
                #[trigger] out[i].price,
                #[trigger] out[j].price,
            ) by {
                assert(out[j] == rest[j - 1]);
                if i >= 1 {
                    assert(out[i] == rest[i - 1]);
                }
            }
        } else {
            lemma_head_bounds(bid, to, from);
            let rest = merge_levels(fname, from, tname, t2, (budget - 1) as nat, bid);
            law_merge_sorted(fname, from, tname, t2, (budget - 1) as nat, bid);
            assert forall|i: int| 0 <= i < t2.len() implies goes_before(bid, ht, #[trigger] px_of(t2[i])) by {
                assert(t2[i] == to[i + 1]);
            }
            lemma_merge_bounded(ht, fname, from, tname, t2, (budget - 1) as nat, bid);
            assert(out[0].price == ht);
            assert forall|i: int, j: int| 0 <= i < j < out.len() implies goes_before(
                bid,
                #[trigger] out[i].price,
                #[trigger] out[j].price,
            ) by {
                assert(out[j] == rest[j - 1]);
                if i >= 1 {
                    assert(out[i] == rest[i - 1]);
                }
            }
        }
    }
}

/// Every level kept goes before every level left out of `from` (the levels of
/// `from` from `untaken` on).
pub open spec fn kept_before_rest(out: Seq<LevelView>, l: Seq<PxQt>, untaken: nat, bid: bool) -> bool {
    forall|k: int, i: int|
        0 <= k < out.len() && untaken <= i < l.len() ==> goes_before(
            bid,
            #[trigger] out[k].price,
            #[trigger] px_of(l[i]),
        )
}

/// When both ladders are in price order, the merge keeps the best levels: no
/// level of either ladder that it leaves out goes before a level it keeps.
pub proof fn law_merge_keeps_best(
    fname: Seq<char>,
    from: Seq<PxQt>,
    tname: Seq<char>,
    to: Seq<PxQt>,
    budget: nat,
    bid: bool,
)
    requires
        ladder_well_formed(from),
        ladder_well_formed(to),
        ladder_sorted(from, bid),
        ladder_sorted(to, bid),
    ensures
        kept_before_rest(
            merge_levels(fname, from, tname, to, budget, bid),
            from,
            merge_taken(from, to, budget, bid).0,
            bid,
        ),
        kept_before_rest(
            merge_levels(fname, from, tname, to, budget, bid),
            to,
            merge_taken(from, to, budget, bid).1,
            bid,
        ),
    decreases from.len() + to.len(),
{
    let out = merge_levels(fname, from, tname, to, budget, bid);
    let tk = merge_taken(from, to, budget, bid);
    if budget == 0 {
    } else if from.len() == 0 {
        assert forall|k: int, i: int| 0 <= k < out.len() && tk.1 <= i < to.len() implies goes_before(
            bid,
            #[trigger] out[k].price,
            #[trigger] px_of(to[i]),
        ) by {
            assert(out[k] == level_of(tname, to[k]));
            assert(is_ordered_px(px_of(to[k])));
        }
    } else if to.len() == 0 {
        assert forall|k: int, i: int| 0 <= k < out.len() && tk.0 <= i < from.len() implies goes_before(
            bid,
            #[trigger] out[k].price,
            #[trigger] px_of(from[i]),
        ) by {
            assert(out[k] == level_of(fname, from[k]));
            assert(is_ordered_px(px_of(from[k])));
        }
    } else {
        let f2 = from.drop_first();
        let t2 = to.drop_first();
        let hf = px_of(from[0]);
        let ht = px_of(to[0]);
        assert(is_ordered_px(hf));
        assert(is_ordered_px(ht));
        lemma_drop_first_wf(from, bid);
        lemma_drop_first_wf(to, bid);
        let c = px_text_order(hf, ht);
        law_px_order_total_preorder(hf, ht, hf);
        if c == 0 {
            lemma_head_bounds(bid, from, to);
            lemma_head_bounds(bid, to, from);
            if budget >= 2 {
                let rest = merge_levels(fname, f2, tname, t2, (budget - 2) as nat, bid);
                let r = merge_taken(f2, t2, (budget - 2) as nat, bid);
                law_merge_keeps_best(fname, f2, tname, t2, (budget - 2) as nat, bid);
                assert(out[0].price == hf);
                assert(out[1].price == ht);
                assert forall|k: int, i: int| 0 <= k < out.len() && tk.0 <= i < from.len() implies goes_before(
                    bid,
                    #[trigger] out[k].price,
                    #[trigger] px_of(from[i]),
                ) by {
                    if k >= 2 {
                        assert(out[k] == rest[k - 2]);
                        assert(f2[i - 1] == from[i]);
                        assert(goes_before(bid, rest[k - 2].price, px_of(f2[i - 1])));
                    }
                }
                assert forall|k: int, i: int| 0 <= k < out.len() && tk.1 <= i < to.len() implies goes_before(
                    bid,
                    #[trigger] out[k].price,
                    #[trigger] px_of(to[i]),
                ) by {
                    if k >= 2 {
                        assert(out[k] == rest[k - 2]);
                        assert(t2[i - 1] == to[i]);
                        assert(goes_before(bid, rest[k - 2].price, px_of(t2[i - 1])));
                    }
                }
            } else {
                assert(out[0].price == hf);
            }
        } else if first_goes_first(bid, c) {
            lemma_head_bounds(bid, from, to);
            let rest = merge_levels(fname, f2, tname, to, (budget - 1) as nat, bid);
            law_merge_keeps_best(fname, f2, tname, to, (budget - 1) as nat, bid);
            assert(out[0].price == hf);
            assert forall|k: int, i: int| 0 <= k < out.len() && tk.0 <= i < from.len() implies goes_before(
                bid,
                #[trigger] out[k].price,
                #[trigger] px_of(from[i]),
            ) by {
                if k >= 1 {
                    assert(out[k] == rest[k - 1]);
                    assert(f2[i - 1] == from[i]);
                    assert(goes_before(bid, rest[k - 1].price, px_of(f2[i - 1])));
                }
            }
            assert forall|k: int, i: int| 0 <= k < out.len() && tk.1 <= i < to.len() implies goes_before(
                bid,
                #[trigger] out[k].price,
                #[trigger] px_of(to[i]),
            ) by {
                if k >= 1 {
                    assert(out[k] == rest[k - 1]);
                    assert(goes_before(bid, rest[k - 1].price, px_of(to[i])));
                }
            }
        } else {
            lemma_head_bounds(bid, to, from);
            let rest = merge_levels(fname, from, tname, t2, (budget - 1) as nat, bid);
            law_merge_keeps_best(fname, from, tname, t2, (budget - 1) as nat, bid);
            assert(out[0].price == ht);
            assert forall|k: int, i: int| 0 <= k < out.len() && tk.0 <= i < from.len() implies goes_before(
                bid,
                #[trigger] out[k].price,
                #[trigger] px_of(from[i]),
            ) by {
                if k >= 1 {
                    assert(out[k] == rest[k - 1]);
                    assert(goes_before(bid, rest[k - 1].price, px_of(from[i])));
                }
            }
            assert forall|k: int, i: int| 0 <= k < out.len() && tk.1 <= i < to.len() implies goes_before(
                bid,
                #[trigger] out[k].price,
                #[trigger] px_of(to[i]),
            ) by {
                if k >= 1 {
                    assert(out[k] == rest[k - 1]);
                    assert(t2[i - 1] == to[i]);
                    assert(goes_before(bid, rest[k - 1].price, px_of(t2[i - 1])));
                }
            }
        }
    }
}

/// An update of one book: its side and its new bids and asks.
pub type BookUpdate = (BookSide, Seq<PxQt>, Seq<PxQt>);

pub open spec fn other_side(side: BookSide) -> BookSide {
    match side {
        BookSide::A => BookSide::B,
        BookSide::B => BookSide::A,
    }
}

pub open spec fn side_name(side: BookSide, name_a: Seq<char>, name_b: Seq<char>) -> Seq<char> {
    match side {
        BookSide::A => name_a,
        BookSide::B => name_b,
    }
}

/// The last bids and asks that the updates gave book `side` (none before its
/// first update).
pub open spec fn last_ladders(updates: Seq<BookUpdate>, side: BookSide) -> (Seq<PxQt>, Seq<PxQt>)
    decreases updates.len(),
{
    if updates.len() == 0 {
        (Seq::empty(), Seq::empty())
    } else if updates.last().0 == side {
        (updates.last().1, updates.last().2)
    } else {
        last_ladders(updates.drop_last(), side)
    }
}

pub open spec fn book_ladders(m: MergeBook, side: BookSide) -> (Seq<PxQt>, Seq<PxQt>) {
    match side {
        BookSide::A => (m.last_bids_a@, m.last_asks_a@),
        BookSide::B => (m.last_bids_b@, m.last_asks_b@),
    }
}

/// What `MergeBook::update` makes of `old` for update `u` (its `ensures`), the
/// books being named `name_a` and `name_b`.
pub open spec fn updated(
    old: MergeBook,
    new: MergeBook,
    top_n: nat,
    name_a: Seq<char>,
    name_b: Seq<char>,
    u: BookUpdate,
) -> bool {
    let (side, bids, asks) = u;
    &&& book_ladders(new, side) == (bids, asks)
    &&& book_ladders(new, other_side(side)) == book_ladders(old, other_side(side))
    &&& levels_view(new.merged_bids@) == merge_levels(
        side_name(side, name_a, name_b),
        bids,
        side_name(other_side(side), name_a, name_b),
        book_ladders(old, other_side(side)).0,
        top_n,
        true,
    )
    &&& levels_view(new.merged_asks@) == merge_levels(
        side_name(side, name_a, name_b),
        asks,
        side_name(other_side(side), name_a, name_b),
        book_ladders(old, other_side(side)).1,
        top_n,
        false,
    )
}

/// The merging loop keeps the last book received from each exchange: after a
/// series of updates, starting with no book, each side holds the ladders of its
/// last update, and the merged book is the merge of the newest update's book
/// (first on ties) with the other book's last ladders.
pub proof fn law_merge_follows_last_books(
    top_n: nat,
    name_a: Seq<char>,
    name_b: Seq<char>,
    books: Seq<MergeBook>,
    updates: Seq<BookUpdate>,
)
    requires
        books.len() == updates.len() + 1,
        book_ladders(books[0], BookSide::A) == (Seq::<PxQt>::empty(), Seq::<PxQt>::empty()),
        book_ladders(books[0], BookSide::B) == (Seq::<PxQt>::empty(), Seq::<PxQt>::empty()),
        forall|j: int|
            0 <= j < updates.len() ==> updated(
                #[trigger] books[j],
                books[j + 1],
                top_n,
                name_a,
                name_b,
                updates[j],
            ),
    ensures
        book_ladders(books.last(), BookSide::A) == last_ladders(updates, BookSide::A),
        book_ladders(books.last(), BookSide::B) == last_ladders(updates, BookSide::B),
        updates.len() > 0 ==> ({
            let side = updates.last().0;
            let (bids, asks) = last_ladders(updates, side);
            let (obids, oasks) = last_ladders(updates, other_side(side));
            &&& levels_view(books.last().merged_bids@) == merge_levels(
                side_name(side, name_a, name_b),
                bids,
                side_name(other_side(side), name_a, name_b),
                obids,
                top_n,
                true,
            )
            &&& levels_view(books.last().merged_asks@) == merge_levels(
                side_name(side, name_a, name_b),
                asks,
                side_name(other_side(side), name_a, name_b),
                oasks,
                top_n,
                false,
            )
        }),
    decreases updates.len(),
{
    if updates.len() > 0 {
        let k = updates.len() - 1;
        let pre = updates.drop_last();
        assert forall|j: int| 0 <= j < pre.len() implies updated(
            #[trigger] books.drop_last()[j],
            books.drop_last()[j + 1],
            top_n,
            name_a,
            name_b,
            pre[j],
        ) by {
            assert(books.drop_last()[j] == books[j]);
            assert(books.drop_last()[j + 1] == books[j + 1]);
            assert(pre[j] == updates[j]);
        }
        law_merge_follows_last_books(top_n, name_a, name_b, books.drop_last(), pre);
        assert(books.drop_last().last() == books[k]);
        assert(updated(books[k], books[k + 1], top_n, name_a, name_b, updates[k]));
        let side = updates.last().0;
        assert(last_ladders(updates, other_side(side)) == last_ladders(pre, other_side(side)));
    }
}

} // verus!
