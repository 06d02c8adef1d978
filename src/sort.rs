use vstd::prelude::*;

use crate::state::{side_wf, drawn_from, ids_distinct, lemma_total_amount_concat, total_amount, LimitOrder, Side};

verus! {

/// Whether a price on `side` is strictly better than another: higher for
/// bids, lower for asks.
pub open spec fn better_price(side: Side, a: u64, b: u64) -> bool {
    match side {
        Side::Bid => a > b,
        Side::Ask => a < b,
    }
}

/// Executable form of `better_price`.
pub fn is_better_price(side: Side, a: u64, b: u64) -> (r: bool)
    ensures
        r == better_price(side, a, b),
{
    match side {
        Side::Bid => a > b,
        Side::Ask => a < b,
    }
}

/// No order stands behind one with a worse price.
pub open spec fn in_priority_order(side: Side, s: Seq<LimitOrder>) -> bool {
    forall|i: int, j: int|
        0 <= i < j < s.len() ==> !better_price(side, #[trigger] s[j].price, #[trigger] s[i].price)
}

/// The orders of `s` at price `p`, in the order in which `s` holds them.
pub open spec fn at_price(s: Seq<LimitOrder>, p: u64) -> Seq<LimitOrder> {
    s.filter(price_is(p))
}

pub open spec fn price_is(p: u64) -> spec_fn(LimitOrder) -> bool {
    |o: LimitOrder| o.price == p
}

proof fn lemma_at_price_one(x: LimitOrder, p: u64)
    ensures
        at_price(seq![x], p) == (if x.price == p {
            seq![x]
        } else {
            Seq::<LimitOrder>::empty()
        }),
{
    reveal_with_fuel(Seq::filter, 2);
    assert(seq![x].drop_last() =~= Seq::<LimitOrder>::empty());
    if x.price == p {
        assert(at_price(seq![x], p) =~= seq![x]);
    } else {
        assert(at_price(seq![x], p) =~= Seq::<LimitOrder>::empty());
    }
}

/// `t` holds at every price the same orders as `s`, in the same order.
pub open spec fn same_queues(s: Seq<LimitOrder>, t: Seq<LimitOrder>) -> bool {
    forall|p: u64| #[trigger] at_price(s, p) == at_price(t, p)
}

proof fn lemma_at_price_insert(r: Seq<LimitOrder>, k: int, x: LimitOrder, p: u64)
    requires
        0 <= k <= r.len(),
    ensures
        at_price(r.insert(k, x), p) == at_price(r.subrange(0, k), p) + at_price(seq![x], p)
            + at_price(r.subrange(k, r.len() as int), p),
{
    let f = price_is(p);
    let a = r.subrange(0, k);
    let b = r.subrange(k, r.len() as int);
    assert(r.insert(k, x) =~= a + seq![x] + b);
    Seq::filter_distributes_over_add(a + seq![x], b, f);
    Seq::filter_distributes_over_add(a, seq![x], f);
    assert(r =~= a + b);
    Seq::filter_distributes_over_add(a, b, f);
}

proof fn lemma_at_price_none(s: Seq<LimitOrder>, p: u64)
    requires
        forall|i: int| 0 <= i < s.len() ==> (#[trigger] s[i]).price != p,
    ensures
        at_price(s, p) == Seq::<LimitOrder>::empty(),
    decreases s.len(),
{
    let f = price_is(p);
    reveal_with_fuel(Seq::filter, 1);
    if s.len() > 0 {
        lemma_at_price_none(s.drop_last(), p);
    }
    assert(at_price(s, p) =~= Seq::<LimitOrder>::empty());
}

/// `t` is `s` sorted stably into priority order.
pub open spec fn is_priority_sort_of(side: Side, s: Seq<LimitOrder>, t: Seq<LimitOrder>) -> bool {
    &&& t.len() == s.len()
    &&& in_priority_order(side, t)
    &&& same_queues(s, t)
}

/// Sorts one side of a book into priority order: best price first and,
/// at one price, the order that was placed first stays first.
pub fn sort_by_priority(v: &mut Vec<LimitOrder>, side: Side)
    ensures
        final(v)@.len() == old(v)@.len(),
        is_priority_sort_of(side, old(v)@, final(v)@),
        drawn_from(final(v)@, old(v)@),
        ids_distinct(old(v)@) ==> ids_distinct(final(v)@),
        total_amount(final(v)@) == total_amount(old(v)@),
{
    let ghost s = v@;
    let mut r: Vec<LimitOrder> = Vec::new();
    let mut i: usize = 0;
    proof {
        assert(s.subrange(0, 0) =~= r@);
    }
    while i < v.len()
        invariant
            v@ == s,
            0 <= i <= s.len(),
            r@.len() == i,
            in_priority_order(side, r@),
            forall|p: u64| #[trigger] at_price(r@, p) == at_price(s.subrange(0, i as int), p),
            forall|j: int| 0 <= j < r@.len() ==> exists|k: int| 0 <= k < i && #[trigger] r@[j] == s[k],
            ids_distinct(s) ==> ids_distinct(r@),
            total_amount(r@) == total_amount(s.subrange(0, i as int)),
        decreases s.len() - i,
    {
        let x = v[i];
        let mut k: usize = 0;
        while k < r.len() && !is_better_price(side, x.price, r[k].price)
            invariant
                0 <= k <= r@.len(),
                forall|j: int| 0 <= j < k ==> !better_price(side, x.price, #[trigger] r@[j].price),
            decreases r@.len() - k,
        {
            k = k + 1;
        }
        let ghost old_r = r@;
        r.insert(k, x);
        proof {
            let pre = old_r.subrange(0, k as int);
            let post = old_r.subrange(k as int, old_r.len() as int);
            assert(r@ =~= pre + (seq![x] + post));
            assert(old_r =~= pre + post);
            lemma_total_amount_concat(pre, seq![x] + post);
            lemma_total_amount_concat(seq![x], post);
            lemma_total_amount_concat(pre, post);
            assert(s.subrange(0, i + 1) =~= s.subrange(0, i as int) + seq![x]);
            lemma_total_amount_concat(s.subrange(0, i as int), seq![x]);
            assert(seq![x].drop_first() =~= Seq::<LimitOrder>::empty());
            assert(total_amount(Seq::<LimitOrder>::empty()) == 0);
            assert(total_amount(seq![x]) == x.amount);
        }
        proof {
            assert forall|j: int| 0 <= j < r@.len() implies exists|m: int| 0 <= m < i + 1 && #[trigger] r@[j] == s[m] by {
                if j < k {
                    assert(r@[j] == old_r[j]);
                } else if j == k {
                    assert(r@[j] == s[i as int]);
                } else {
                    assert(r@[j] == old_r[j - 1]);
                }
            }
            if ids_distinct(s) {
                assert forall|a: int, b: int| 0 <= a < r@.len() && 0 <= b < r@.len() && a != b implies #[trigger] r@[a].order_id != #[trigger] r@[b].order_id by {
                    if a != k && b != k {
                        let a0 = if a < k { a } else { a - 1 };
                        let b0 = if b < k { b } else { b - 1 };
                        assert(r@[a] == old_r[a0]);
                        assert(r@[b] == old_r[b0]);
                    } else if a == k {
                        let b0 = if b < k { b } else { b - 1 };
                        assert(r@[b] == old_r[b0]);
                        let m = choose|m: int| 0 <= m < i && #[trigger] old_r[b0] == s[m];
                        assert(s[m].order_id != s[i as int].order_id);
                    } else {
                        let a0 = if a < k { a } else { a - 1 };
                        assert(r@[a] == old_r[a0]);
                        let m = choose|m: int| 0 <= m < i && #[trigger] old_r[a0] == s[m];
                        assert(s[m].order_id != s[i as int].order_id);
                    }
                }
            }
            assert forall|a: int, b: int| 0 <= a < b < r@.len() implies !better_price(
                side,
                #[trigger] r@[b].price,
                #[trigger] r@[a].price,
            ) by {
                if k < old_r.len() {
                    assert(better_price(side, x.price, old_r[k as int].price));
                }
                if b > k && a < k {
                    assert(old_r[a] == r@[a]);
                    assert(old_r[b - 1] == r@[b]);
                }
            }
            assert forall|p: u64| #[trigger] at_price(r@, p) == at_price(
                s.subrange(0, i + 1),
                p,
            ) by {
                let f = price_is(p);
                lemma_at_price_insert(old_r, k as int, x, p);
                lemma_at_price_one(x, p);
                assert(at_price(old_r, p) == at_price(s.subrange(0, i as int), p));
                assert(x == s[i as int]);
                assert(s.subrange(0, i + 1) =~= s.subrange(0, i as int) + seq![x]);
                Seq::filter_distributes_over_add(s.subrange(0, i as int), seq![x], f);
                assert(old_r =~= old_r.subrange(0, k as int) + old_r.subrange(
                    k as int,
                    old_r.len() as int,
                ));
                Seq::filter_distributes_over_add(
                    old_r.subrange(0, k as int),
                    old_r.subrange(k as int, old_r.len() as int),
                    f,
                );
                if p == x.price {
                    let tail = old_r.subrange(k as int, old_r.len() as int);
                    assert forall|j: int| 0 <= j < tail.len() implies (#[trigger] tail[j]).price
                        != p by {
                        if k < old_r.len() {
                            assert(better_price(side, x.price, old_r[k as int].price));
                            assert(!better_price(side, old_r[k + j].price, old_r[k as int].price));
                        }
                    }
                    lemma_at_price_none(tail, p);
                }
                assert(at_price(r@, p) =~= at_price(s.subrange(0, i + 1), p));
            }
        }
        i = i + 1;
    }
    proof {
        assert(s.subrange(0, s.len() as int) =~= s);
        assert(s.subrange(0, 0) =~= Seq::<LimitOrder>::empty());
        assert forall|j: int| 0 <= j < r@.len() implies s.contains(#[trigger] r@[j]) by {
            let m = choose|m: int| 0 <= m < i && #[trigger] r@[j] == s[m];
            assert(s[m] == r@[j]);
        }
    }
    *v = r;
}

proof fn lemma_at_price_front(t: Seq<LimitOrder>, p: u64)
    requires
        t.len() > 0,
    ensures
        at_price(t, p) == (if t[0].price == p {
            seq![t[0]]
        } else {
            Seq::<LimitOrder>::empty()
        }) + at_price(t.drop_first(), p),
{
    assert(t =~= seq![t[0]] + t.drop_first());
    t.drop_first().lemma_filter_prepend(t[0], price_is(p));
}

/// Where `t[0]`'s price is a price of `u`, some order of `u` has it.
proof fn lemma_price_shared(t: Seq<LimitOrder>, u: Seq<LimitOrder>) -> (j: int)
    requires
        t.len() > 0,
        at_price(t, t[0].price) == at_price(u, t[0].price),
    ensures
        0 <= j < u.len(),
        u[j] == t[0],
{
    t.lemma_filter_contains(price_is(t[0].price), 0);
    u.lemma_filter_contains_rev(price_is(t[0].price), t[0]);
    choose|j: int| 0 <= j < u.len() && u[j] == t[0]
}

/// Two sides in priority order with the same queue at every price are
/// the same side.
proof fn lemma_priority_order_unique(side: Side, t1: Seq<LimitOrder>, t2: Seq<LimitOrder>)
    requires
        in_priority_order(side, t1),
        in_priority_order(side, t2),
        same_queues(t1, t2),
    ensures
        t1 == t2,
    decreases t1.len(),
{
    if t1.len() == 0 || t2.len() == 0 {
        if t1.len() > 0 {
            let j = lemma_price_shared(t1, t2);
        }
        if t2.len() > 0 {
            assert(at_price(t2, t2[0].price) == at_price(t1, t2[0].price));
            let j = lemma_price_shared(t2, t1);
        }
        assert(t1 =~= t2);
    } else {
        let first_price = t1[0].price;
        let other_price = t2[0].price;
        let j2 = lemma_price_shared(t1, t2);
        assert(at_price(t2, other_price) == at_price(t1, other_price));
        let j1 = lemma_price_shared(t2, t1);
        if j2 > 0 {
            assert(!better_price(side, t2[j2].price, t2[0].price));
        }
        if j1 > 0 {
            assert(!better_price(side, t1[j1].price, t1[0].price));
        }
        assert(first_price == other_price);
        lemma_at_price_front(t1, first_price);
        lemma_at_price_front(t2, first_price);
        assert(at_price(t1, first_price)[0] == t1[0]);
        assert(at_price(t2, first_price)[0] == t2[0]);
        let r1 = t1.drop_first();
        let r2 = t2.drop_first();
        assert forall|p: u64| #[trigger] at_price(r1, p) == at_price(r2, p) by {
            lemma_at_price_front(t1, p);
            lemma_at_price_front(t2, p);
            assert(at_price(t1, p) == at_price(t2, p));
            if p == first_price {
                assert(at_price(r1, p) =~= at_price(t1, p).drop_first());
                assert(at_price(r2, p) =~= at_price(t2, p).drop_first());
            }
        }
        assert forall|i: int, j: int| 0 <= i < j < r1.len() implies !better_price(
            side,
            #[trigger] r1[j].price,
            #[trigger] r1[i].price,
        ) by {
            assert(r1[j] == t1[j + 1] && r1[i] == t1[i + 1]);
        }
        assert forall|i: int, j: int| 0 <= i < j < r2.len() implies !better_price(
            side,
            #[trigger] r2[j].price,
            #[trigger] r2[i].price,
        ) by {
            assert(r2[j] == t2[j + 1] && r2[i] == t2[i + 1]);
        }
        lemma_priority_order_unique(side, r1, r2);
        assert(t1 =~= seq![t1[0]] + r1);
        assert(t2 =~= seq![t2[0]] + r2);
    }
}

/// A stable sort by priority has one outcome: two sides in priority order
/// that both keep the queues of `s` at every price are equal. So the side
/// that `sort_by_priority` produces is determined by its input.
pub proof fn lemma_stable_order_unique(
    side: Side,
    s: Seq<LimitOrder>,
    t1: Seq<LimitOrder>,
    t2: Seq<LimitOrder>,
)
    requires
        is_priority_sort_of(side, s, t1),
        is_priority_sort_of(side, s, t2),
    ensures
        t1 == t2,
{
    assert forall|p: u64| #[trigger] at_price(t1, p) == at_price(t2, p) by {
        assert(at_price(s, p) == at_price(t1, p));
        assert(at_price(s, p) == at_price(t2, p));
    }
    lemma_priority_order_unique(side, t1, t2);
}

/// Whether `x` goes before `y` on `side`: a better price, or the same price
/// and an earlier id.
pub open spec fn ranks_before(side: Side, x: LimitOrder, y: LimitOrder) -> bool {
    better_price(side, x.price, y.price) || (x.price == y.price && x.order_id < y.order_id)
}

/// At each price, the orders of `s` stand in the order of their ids, as
/// placement leaves them.
pub open spec fn ids_rise_within_price(s: Seq<LimitOrder>) -> bool {
    forall|i: int, j: int|
        0 <= i < j < s.len() && s[i].price == s[j].price ==> #[trigger] s[i].order_id
            < #[trigger] s[j].order_id
}

proof fn lemma_at_price_keeps_order(s: Seq<LimitOrder>, p: u64, i: int, j: int) -> (ab: (int, int))
    requires
        0 <= i < j < s.len(),
        s[i].price == p,
        s[j].price == p,
    ensures
        0 <= ab.0 < ab.1 < at_price(s, p).len(),
        at_price(s, p)[ab.0] == s[i],
        at_price(s, p)[ab.1] == s[j],
    decreases s.len(),
{
    let rest = s.drop_first();
    lemma_at_price_front(s, p);
    if i == 0 {
        rest.lemma_filter_contains(price_is(p), j - 1);
        let q = choose|q: int| 0 <= q < at_price(rest, p).len() && at_price(rest, p)[q] == rest[j - 1];
        (0, q + 1)
    } else {
        let (a, b) = lemma_at_price_keeps_order(rest, p, i - 1, j - 1);
        if s[0].price == p {
            (a + 1, b + 1)
        } else {
            (a, b)
        }
    }
}

proof fn lemma_at_price_ids_distinct(s: Seq<LimitOrder>, p: u64)
    requires
        ids_distinct(s),
    ensures
        ids_distinct(at_price(s, p)),
    decreases s.len(),
{
    if s.len() > 0 {
        let rest = s.drop_first();
        assert(ids_distinct(rest)) by {
            assert forall|a: int, b: int|
                0 <= a < rest.len() && 0 <= b < rest.len() && a != b implies #[trigger] rest[a].order_id
                != #[trigger] rest[b].order_id by {
                assert(rest[a] == s[a + 1] && rest[b] == s[b + 1]);
            }
        }
        lemma_at_price_ids_distinct(rest, p);
        lemma_at_price_front(s, p);
        let f = at_price(s, p);
        let fr = at_price(rest, p);
        if s[0].price == p {
            assert forall|a: int, b: int|
                0 <= a < f.len() && 0 <= b < f.len() && a != b implies #[trigger] f[a].order_id
                != #[trigger] f[b].order_id by {
                if a > 0 && b > 0 {
                    assert(f[a] == fr[a - 1] && f[b] == fr[b - 1]);
                } else {
                    let c = if a == 0 { b } else { a };
                    assert(f[c] == fr[c - 1]);
                    rest.lemma_filter_contains_rev(price_is(p), fr[c - 1]);
                    let m = choose|m: int| 0 <= m < rest.len() && rest[m] == fr[c - 1];
                    assert(rest[m] == s[m + 1]);
                }
            }
        } else {
            assert(f =~= fr);
        }
    }
}

/// Where `x` ranks before `y` on a side whose ids rise at each price, the
/// stable priority sort puts `x` before `y`: better prices first and, at one
/// price, earlier orders first.
pub proof fn lemma_priority_sort_ranks(
    side: Side,
    s: Seq<LimitOrder>,
    t: Seq<LimitOrder>,
    xi: int,
    yi: int,
) -> (ij: (int, int))
    requires
        is_priority_sort_of(side, s, t),
        ids_distinct(s),
        ids_rise_within_price(s),
        0 <= xi < s.len(),
        0 <= yi < s.len(),
        ranks_before(side, s[xi], s[yi]),
    ensures
        0 <= ij.0 < ij.1 < t.len(),
        t[ij.0] == s[xi],
        t[ij.1] == s[yi],
{
    let x = s[xi];
    let y = s[yi];
    s.lemma_filter_contains(price_is(x.price), xi);
    s.lemma_filter_contains(price_is(y.price), yi);
    assert(at_price(s, x.price) == at_price(t, x.price));
    assert(at_price(s, y.price) == at_price(t, y.price));
    t.lemma_filter_contains_rev(price_is(x.price), x);
    t.lemma_filter_contains_rev(price_is(y.price), y);
    let tx = choose|k: int| 0 <= k < t.len() && t[k] == x;
    let ty = choose|k: int| 0 <= k < t.len() && t[k] == y;
    if better_price(side, x.price, y.price) {
        if ty < tx {
            assert(!better_price(side, t[tx].price, t[ty].price));
        }
        assert(tx != ty);
    } else {
        let p = x.price;
        if yi < xi {
            assert(s[yi].order_id < s[xi].order_id);
        }
        assert(xi != yi);
        let (a, b) = lemma_at_price_keeps_order(s, p, xi, yi);
        assert(tx != ty);
        if ty < tx {
            let (c, d) = lemma_at_price_keeps_order(t, p, ty, tx);
            lemma_at_price_ids_distinct(s, p);
            let f = at_price(s, p);
            assert(f[a] == f[d]);
            assert(f[b] == f[c]);
            assert(a == d);
            assert(b == c);
        }
    }
    (tx, ty)
}

/// The stable priority sort of a well-formed side is well formed.
pub proof fn lemma_priority_sort_wf(side: Side, s: Seq<LimitOrder>, t: Seq<LimitOrder>, next_order_id: u64)
    requires
        is_priority_sort_of(side, s, t),
        side_wf(s, next_order_id),
    ensures
        side_wf(t, next_order_id),
{
    assert forall|k: int| 0 <= k < t.len() implies s.contains(#[trigger] t[k]) by {
        t.lemma_filter_contains(price_is(t[k].price), k);
        assert(at_price(t, t[k].price) == at_price(s, t[k].price));
        s.lemma_filter_contains_rev(price_is(t[k].price), t[k]);
    }
    assert forall|a: int, b: int|
        0 <= a < t.len() && 0 <= b < t.len() && a != b implies #[trigger] t[a].order_id
        != #[trigger] t[b].order_id by {
        if t[a].order_id == t[b].order_id {
            let sa = choose|m: int| 0 <= m < s.len() && s[m] == t[a];
            let sb = choose|m: int| 0 <= m < s.len() && s[m] == t[b];
            assert(s[sa].order_id == s[sb].order_id);
            assert(sa == sb);
            let p = t[a].price;
            let lo = if a < b { a } else { b };
            let hi = if a < b { b } else { a };
            let (c, d) = lemma_at_price_keeps_order(t, p, lo, hi);
            assert(at_price(t, p) == at_price(s, p));
            lemma_at_price_ids_distinct(s, p);
        }
    }
    assert forall|k: int| 0 <= k < t.len() implies {
        &&& (#[trigger] t[k]).price > 0
        &&& t[k].amount > 0
        &&& t[k].order_id < next_order_id
    } by {
        let m = choose|m: int| 0 <= m < s.len() && s[m] == t[k];
        assert(s[m].price > 0);
    }
}

} // verus!
