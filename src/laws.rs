//! Laws of the snapshot update and of the summary order, proved over the
//! models of the sides.

use vstd::prelude::*;
use crate::book::ExchangeLevel;
use crate::level::{AggregateLevelView, code_index, codes_unique, insert_by_amount, entry_of, has_code, lemma_merge_keeps_other_exchanges, lemma_single_level_at, lemma_sort_by_amount, lemma_sorted_members, lemma_with_entry_at, lemma_without_code_gone, lemma_without_code_keeps_others, lemma_without_code_wf, single_level, sort_by_amount, with_entry, without_code};
use crate::side::{Ranking, at_most, compact, lemma_compact_members, lemma_step_keeps_order, lemma_step_keeps_wf, lemma_update_keeps_side_wf, levels_wf, no_empty_level, ranked_entries, ranks_before, side_wf, snapshot_ranked, step, strictly_ranked, updated_levels, walk};

verus! {

/// Every exchange level of `ranked_entries(levels)` lies at the price of one of the levels.
proof fn lemma_ranked_entries_prices(levels: Seq<AggregateLevelView>)
    requires
        levels_wf(levels),
    ensures
        forall|k: int| 0 <= k < ranked_entries(levels).len() ==> exists|m: int|
            0 <= m < levels.len() && (#[trigger] ranked_entries(levels)[k]).price.value() == levels[m].price.value(),
    decreases levels.len(),
{
    if levels.len() > 0 {
        let init = levels.drop_last();
        assert forall|m: int| 0 <= m < init.len() implies #[trigger] init[m].wf() by {
            assert(init[m] == levels[m]);
        }
        lemma_ranked_entries_prices(init);
        lemma_sorted_members(levels.last().entries);
        let a = ranked_entries(init);
        let b = sort_by_amount(levels.last().entries);
        let s = ranked_entries(levels);
        assert(s == a + b);
        assert forall|k: int| 0 <= k < s.len() implies exists|m: int|
            0 <= m < levels.len() && (#[trigger] s[k]).price.value() == levels[m].price.value() by {
            if k < a.len() {
                assert(s[k] == a[k]);
                let m = choose|m: int| 0 <= m < init.len() && a[k].price.value() == init[m].price.value();
                assert(init[m] == levels[m]);
            } else {
                assert(s[k] == b[k - a.len()]);
                assert(levels.last().entries.contains(b[k - a.len()]));
                assert(levels[levels.len() - 1].wf());
                let w = choose|w: int| 0 <= w < levels.last().entries.len() && levels.last().entries[w] == b[k - a.len()];
                assert(levels.last().entries[w].wf());
                assert(levels.last().entries[w].price.value() == levels.last().price.value());
            }
        }
    }
}

/// The order of a summary side: prices follow the side's ranking, and the
/// exchange levels at one price come from distinct exchanges, largest
/// amount first.
pub open spec fn summary_ordered(s: Seq<ExchangeLevel>, r: Ranking) -> bool {
    forall|i: int, j: int|
        0 <= i < j < s.len() ==> ranks_before(r, (#[trigger] s[i]).price.value(), (#[trigger] s[j]).price.value())
            || (s[i].price.value() == s[j].price.value() && s[j].amount.value() <= s[i].amount.value()
            && s[i].exchange_code@ != s[j].exchange_code@)
}

/// Inserting by amount an entry whose exchange `s` lacks keeps the
/// exchanges distinct; every entry of the result is `x` or one of `s`.
proof fn lemma_insert_by_amount_unique(s: Seq<ExchangeLevel>, x: ExchangeLevel)
    requires
        codes_unique(s),
        forall|k: int| 0 <= k < s.len() ==> (#[trigger] s[k]).exchange_code@ != x.exchange_code@,
    ensures
        codes_unique(insert_by_amount(s, x)),
        forall|k: int|
            0 <= k < insert_by_amount(s, x).len() ==> #[trigger] insert_by_amount(s, x)[k] == x || s.contains(
                insert_by_amount(s, x)[k],
            ),
    decreases s.len(),
{
    let out = insert_by_amount(s, x);
    if s.len() == 0 {
    } else if s[0].amount.value() < x.amount.value() {
        assert forall|k: int| 0 <= k < out.len() implies #[trigger] out[k] == x || s.contains(out[k]) by {
            if k > 0 {
                assert(out[k] == s[k - 1]);
            }
        }
        assert forall|i: int, j: int| 0 <= i < j < out.len() implies out[i].exchange_code@
            != out[j].exchange_code@ by {
            assert(out[j] == s[j - 1]);
            if i > 0 {
                assert(out[i] == s[i - 1]);
            }
        }
    } else {
        let t = s.drop_first();
        assert forall|i: int, j: int| 0 <= i < j < t.len() implies t[i].exchange_code@ != t[j].exchange_code@ by {
            assert(t[i] == s[i + 1]);
            assert(t[j] == s[j + 1]);
        }
        assert forall|k: int| 0 <= k < t.len() implies (#[trigger] t[k]).exchange_code@ != x.exchange_code@ by {
            assert(t[k] == s[k + 1]);
        }
        lemma_insert_by_amount_unique(t, x);
        let it = insert_by_amount(t, x);
        assert(out == seq![s[0]] + it);
        assert forall|k: int| 0 <= k < out.len() implies #[trigger] out[k] == x || s.contains(out[k]) by {
            if k > 0 {
                assert(out[k] == it[k - 1]);
                if it[k - 1] != x {
                    let w = choose|w: int| 0 <= w < t.len() && t[w] == it[k - 1];
                    assert(s[w + 1] == t[w]);
                }
            } else {
                assert(s[0] == out[0]);
            }
        }
        assert forall|i: int, j: int| 0 <= i < j < out.len() implies out[i].exchange_code@
            != out[j].exchange_code@ by {
            assert(out[j] == it[j - 1]);
            if i > 0 {
                assert(out[i] == it[i - 1]);
            } else if it[j - 1] != x {
                let w = choose|w: int| 0 <= w < t.len() && t[w] == it[j - 1];
                assert(s[w + 1] == t[w]);
            }
        }
    }
}

/// Ordering by amount keeps the exchanges of a level distinct.
proof fn lemma_sort_by_amount_unique(s: Seq<ExchangeLevel>)
    requires
        codes_unique(s),
    ensures
        codes_unique(sort_by_amount(s)),
    decreases s.len(),
{
    if s.len() > 0 {
        let init = s.drop_last();
        assert forall|i: int, j: int| 0 <= i < j < init.len() implies init[i].exchange_code@
            != init[j].exchange_code@ by {
            assert(init[i] == s[i]);
            assert(init[j] == s[j]);
        }
        lemma_sort_by_amount_unique(init);
        lemma_sorted_members(init);
        let si = sort_by_amount(init);
        assert forall|k: int| 0 <= k < si.len() implies (#[trigger] si[k]).exchange_code@ != s.last().exchange_code@ by {
            assert(init.contains(si[k]));
            let w = choose|w: int| 0 <= w < init.len() && init[w] == si[k];
            assert(s[w] == init[w]);
            assert(s[w].exchange_code@ != s[s.len() - 1].exchange_code@);
        }
        lemma_insert_by_amount_unique(si, s.last());
    }
}

proof fn lemma_ranked_entries_ordered(levels: Seq<AggregateLevelView>, r: Ranking)
    requires
        side_wf(levels, r),
    ensures
        summary_ordered(ranked_entries(levels), r),
    decreases levels.len(),
{
    if levels.len() > 0 {
        let init = levels.drop_last();
        let last = levels.last();
        assert(levels[levels.len() - 1].wf());
        assert forall|m: int| 0 <= m < init.len() implies #[trigger] init[m].wf() by {
            assert(init[m] == levels[m]);
        }
        assert forall|m: int| 0 <= m < init.len() implies #[trigger] init[m].entries.len() > 0 by {
            assert(init[m] == levels[m]);
        }
        assert forall|a: int, b: int| 0 <= a < b < init.len() implies ranks_before(
            r,
            #[trigger] init[a].price.value(),
            #[trigger] init[b].price.value(),
        ) by {
            assert(init[a] == levels[a]);
            assert(init[b] == levels[b]);
        }
        lemma_ranked_entries_ordered(init, r);
        lemma_ranked_entries_prices(init);
        lemma_sorted_members(last.entries);
        lemma_sort_by_amount(last.entries);
        lemma_sort_by_amount_unique(last.entries);
        let a = ranked_entries(init);
        let b = sort_by_amount(last.entries);
        let s = ranked_entries(levels);
        assert(s == a + b);
        assert forall|k: int| 0 <= k < b.len() implies (#[trigger] b[k]).price.value() == last.price.value() by {
            assert(last.entries.contains(b[k]));
            let w = choose|w: int| 0 <= w < last.entries.len() && last.entries[w] == b[k];
            assert(last.entries[w].wf());
            assert(last.entries[w].price.value() == last.price.value());
        }
        assert forall|i: int, j: int| 0 <= i < j < s.len() implies ranks_before(
            r,
            (#[trigger] s[i]).price.value(),
            (#[trigger] s[j]).price.value(),
        ) || (s[i].price.value() == s[j].price.value() && s[j].amount.value() <= s[i].amount.value()
            && s[i].exchange_code@ != s[j].exchange_code@) by {
            if j < a.len() {
                assert(s[i] == a[i]);
                assert(s[j] == a[j]);
            } else if i >= a.len() {
                assert(s[i] == b[i - a.len()]);
                assert(s[j] == b[j - a.len()]);
            } else {
                assert(s[i] == a[i]);
                assert(s[j] == b[j - a.len()]);
                let m = choose|m: int| 0 <= m < init.len() && a[i].price.value() == init[m].price.value();
                assert(init[m] == levels[m]);
                assert(ranks_before(r, levels[m].price.value(), levels[levels.len() - 1].price.value()));
            }
        }
    }
}

/// The best levels of a side are in summary order: prices follow the
/// ranking, and at one price the entries come from distinct exchanges,
/// largest amount first.
pub proof fn lemma_best_levels_ordered(levels: Seq<AggregateLevelView>, r: Ranking, n: int)
    requires
        side_wf(levels, r),
        n >= 0,
    ensures
        summary_ordered(at_most(ranked_entries(levels), n), r),
{
    lemma_ranked_entries_ordered(levels, r);
    let s = ranked_entries(levels);
    let t = at_most(s, n);
    assert forall|i: int, j: int| 0 <= i < j < t.len() implies ranks_before(
        r,
        (#[trigger] t[i]).price.value(),
        (#[trigger] t[j]).price.value(),
    ) || (t[i].price.value() == t[j].price.value() && t[j].amount.value() <= t[i].amount.value()
        && t[i].exchange_code@ != t[j].exchange_code@) by {
        assert(t[i] == s[i]);
        assert(t[j] == s[j]);
    }
}

/// One new aggregate level for each snapshot level, in order.
pub open spec fn single_levels(us: Seq<ExchangeLevel>) -> Seq<AggregateLevelView> {
    us.map_values(|u: ExchangeLevel| single_level(u))
}

proof fn lemma_compact_full(levels: Seq<AggregateLevelView>)
    requires
        no_empty_level(levels),
    ensures
        compact(levels) == levels,
    decreases levels.len(),
{
    if levels.len() > 0 {
        let rest = levels.drop_first();
        assert forall|i: int| 0 <= i < rest.len() implies #[trigger] rest[i].entries.len() > 0 by {
            assert(rest[i] == levels[i + 1]);
        }
        lemma_compact_full(rest);
        assert(levels[0].entries.len() > 0);
        assert(seq![levels[0]] + rest =~= levels);
    }
}

proof fn lemma_walk_at_end(levels: Seq<AggregateLevelView>, us: Seq<ExchangeLevel>, r: Ranking, cap: int)
    ensures
        walk(levels, levels.len() as int, us, r, cap) == levels + single_levels(
            us.take(if us.len() <= cap - levels.len() { us.len() as int } else if cap - levels.len() >= 0 {
                cap - levels.len()
            } else {
                0
            }),
        ),
    decreases us.len(),
{
    let n = if us.len() <= cap - levels.len() { us.len() as int } else if cap - levels.len() >= 0 {
        cap - levels.len()
    } else {
        0
    };
    if us.len() == 0 {
        assert(levels + single_levels(us.take(n)) =~= levels);
    } else if levels.len() >= cap {
        assert(n == 0);
        assert(levels + single_levels(us.take(n)) =~= levels);
    } else {
        let next = levels.push(single_level(us[0]));
        let rest = us.drop_first();
        lemma_walk_at_end(next, rest, r, cap);
        assert(single_levels(us.take(n)) =~= seq![single_level(us[0])] + single_levels(rest.take(n - 1)));
        assert(next + single_levels(rest.take(n - 1)) =~= levels + single_levels(us.take(n)));
    }
}

/// An empty side takes a snapshot side as it is: one level per snapshot
/// level, in the snapshot's order, up to the side's depth.
pub proof fn lemma_empty_side_takes_snapshot(us: Seq<ExchangeLevel>, r: Ranking, cap: int)
    requires
        cap >= 0,
    ensures
        updated_levels(seq![], us, r, cap) == single_levels(us.take(if us.len() <= cap { us.len() as int } else { cap })),
{
    let n = if us.len() <= cap { us.len() as int } else { cap };
    lemma_walk_at_end(seq![], us, r, cap);
    let w = single_levels(us.take(n));
    assert(Seq::<AggregateLevelView>::empty() + w =~= w);
    assert forall|i: int| 0 <= i < w.len() implies #[trigger] w[i].entries.len() > 0 by {
        assert(w[i].entries == seq![us.take(n)[i]]);
    }
    lemma_compact_full(w);
}

proof fn lemma_step_passes(levels: Seq<AggregateLevelView>, i: int, u: ExchangeLevel, r: Ranking, cap: int)
    requires
        0 <= i <= levels.len(),
        levels.len() >= cap,
        forall|m: int| i <= m < levels.len() ==> ranks_before(r, (#[trigger] levels[m]).price.value(), u.price.value()),
        forall|m: int| i <= m < levels.len() ==> !has_code((#[trigger] levels[m]).entries, u.exchange_code@),
    ensures
        step(levels, i, u, r, cap).0 == levels,
        !step(levels, i, u, r, cap).2,
    decreases levels.len() - i,
{
    if i < levels.len() {
        let lv = levels[i];
        let next = levels.update(i, AggregateLevelView { price: lv.price, entries: without_code(lv.entries, u.exchange_code@) });
        assert(next =~= levels);
        lemma_step_passes(levels, i + 1, u, r, cap);
    }
}

/// A snapshot from an exchange that has no level on a full side, all of
/// whose prices lie past the side's last price, leaves the side as it was.
pub proof fn lemma_snapshot_beyond_full_side(
    levels: Seq<AggregateLevelView>,
    us: Seq<ExchangeLevel>,
    r: Ranking,
    cap: int,
    code: Seq<char>,
)
    requires
        side_wf(levels, r),
        levels.len() >= cap,
        us.len() > 0,
        forall|k: int| 0 <= k < us.len() ==> (#[trigger] us[k]).exchange_code@ == code,
        forall|m: int| 0 <= m < levels.len() ==> !has_code((#[trigger] levels[m]).entries, code),
        forall|m: int, k: int|
            0 <= m < levels.len() && 0 <= k < us.len() ==> ranks_before(
                r,
                (#[trigger] levels[m]).price.value(),
                (#[trigger] us[k]).price.value(),
            ),
    ensures
        updated_levels(levels, us, r, cap) == levels,
{
    assert(us[0].exchange_code@ == code);
    assert forall|m: int| 0 <= m < levels.len() implies ranks_before(r, (#[trigger] levels[m]).price.value(), us[0].price.value()) by {
        assert(ranks_before(r, levels[m].price.value(), us[0].price.value()));
    }
    lemma_step_passes(levels, 0, us[0], r, cap);
    lemma_compact_full(levels);
}

/// Whether one of the snapshot levels `us` lies at price `p`.
pub open spec fn has_price(us: Seq<ExchangeLevel>, p: int) -> bool {
    exists|k: int| 0 <= k < us.len() && (#[trigger] us[k]).price.value() == p
}

/// The entry of `code` at a level, if any, is one of the levels `done`.
pub open spec fn comes_from(done: Seq<ExchangeLevel>, lv: AggregateLevelView, code: Seq<char>) -> bool {
    has_code(lv.entries, code) ==> done.contains(entry_of(lv.entries, code))
}

proof fn lemma_step_replaces(
    levels: Seq<AggregateLevelView>,
    i: int,
    u: ExchangeLevel,
    r: Ranking,
    cap: int,
    done: Seq<ExchangeLevel>,
)
    requires
        levels_wf(levels),
        u.wf(),
        0 <= i <= levels.len(),
        forall|m: int| 0 <= m < i ==> comes_from(done, #[trigger] levels[m], u.exchange_code@),
    ensures
        ({
            let (next, j, go_on) = step(levels, i, u, r, cap);
            &&& go_on ==> forall|m: int| 0 <= m < j ==> comes_from(done.push(u), #[trigger] next[m], u.exchange_code@)
            &&& !go_on ==> forall|m: int| 0 <= m < next.len() ==> comes_from(done, #[trigger] next[m], u.exchange_code@)
        }),
    decreases levels.len() - i,
{
    let c = u.exchange_code@;
    let d2 = done.push(u);
    assert(d2[done.len() as int] == u);
    assert forall|m: int| 0 <= m < i implies comes_from(d2, #[trigger] levels[m], c) by {
        if has_code(levels[m].entries, c) {
            let e = entry_of(levels[m].entries, c);
            assert(done.contains(e));
            let k = choose|k: int| 0 <= k < done.len() && done[k] == e;
            assert(d2[k] == e);
        }
    }
    if i >= levels.len() {
        if levels.len() < cap {
            let next = levels.push(single_level(u));
            lemma_single_level_at(u);
            assert forall|m: int| 0 <= m < levels.len() + 1 implies comes_from(d2, #[trigger] next[m], c) by {
                if m < levels.len() {
                    assert(next[m] == levels[m]);
                }
            }
        }
    } else if ranks_before(r, u.price.value(), levels[i].price.value()) {
        let next = levels.insert(i, single_level(u));
        lemma_single_level_at(u);
        assert forall|m: int| 0 <= m < i + 1 implies comes_from(d2, #[trigger] next[m], c) by {
            if m < i {
                assert(next[m] == levels[m]);
            }
        }
    } else if u.price.value() == levels[i].price.value() {
        let lv = levels[i];
        assert(lv.wf());
        lemma_with_entry_at(lv, u);
        let next = step(levels, i, u, r, cap).0;
        assert forall|m: int| 0 <= m < i + 1 implies comes_from(d2, #[trigger] next[m], c) by {
            if m < i {
                assert(next[m] == levels[m]);
            }
        }
    } else {
        let lv = levels[i];
        assert(lv.wf());
        let nl = AggregateLevelView { price: lv.price, entries: without_code(lv.entries, c) };
        lemma_without_code_wf(lv, c);
        lemma_without_code_gone(lv.entries, c);
        let next = levels.update(i, nl);
        assert forall|k: int| 0 <= k < next.len() implies #[trigger] next[k].wf() by {
            if k != i {
                assert(next[k] == levels[k]);
            }
        }
        assert forall|m: int| 0 <= m < i + 1 implies comes_from(done, #[trigger] next[m], c) by {
            if m < i {
                assert(next[m] == levels[m]);
            }
        }
        lemma_step_replaces(next, i + 1, u, r, cap, done);
    }
}

proof fn lemma_walk_end_replaces(
    levels: Seq<AggregateLevelView>,
    i: int,
    r: Ranking,
    code: Seq<char>,
    done: Seq<ExchangeLevel>,
)
    requires
        strictly_ranked(levels, r),
        0 <= i <= levels.len(),
        done.len() > 0 ==> i > 0 && levels[i - 1].price.value() == done.last().price.value(),
        forall|m: int| 0 <= m < i ==> comes_from(done, #[trigger] levels[m], code),
    ensures
        forall|m: int|
            0 <= m < levels.len() ==> comes_from(done, #[trigger] levels[m], code) || done.len() == 0 || (ranks_before(
                r,
                done.last().price.value(),
                levels[m].price.value(),
            )),
{
    assert forall|m: int| 0 <= m < levels.len() implies comes_from(done, #[trigger] levels[m], code) || done.len() == 0
        || (ranks_before(r, done.last().price.value(), levels[m].price.value())) by {
        if m >= i && done.len() > 0 {
            assert(ranks_before(r, levels[i - 1].price.value(), levels[m].price.value()));
        }
    }
}

#[verifier::rlimit(100)]
proof fn lemma_walk_replaces(
    levels: Seq<AggregateLevelView>,
    i: int,
    us: Seq<ExchangeLevel>,
    r: Ranking,
    cap: int,
    code: Seq<char>,
    done: Seq<ExchangeLevel>,
)
    requires
        levels_wf(levels),
        strictly_ranked(levels, r),
        snapshot_ranked(us, r),
        forall|k: int| 0 <= k < us.len() ==> (#[trigger] us[k]).exchange_code@ == code,
        0 <= i <= levels.len(),
        i == 0 || us.len() == 0 || ranks_before(r, levels[i - 1].price.value(), us[0].price.value()),
        done.len() > 0 ==> i > 0 && levels[i - 1].price.value() == done.last().price.value(),
        forall|m: int| 0 <= m < i ==> comes_from(done, #[trigger] levels[m], code),
    ensures
        ({
            let out = walk(levels, i, us, r, cap);
            let all = done + us;
            forall|m: int|
                0 <= m < out.len() ==> comes_from(all, #[trigger] out[m], code) || all.len() == 0 || (ranks_before(
                    r,
                    all.last().price.value(),
                    out[m].price.value(),
                ))
        }),
    decreases us.len(),
{
    let all = done + us;
    assert forall|m: int| 0 <= m < i implies comes_from(all, #[trigger] levels[m], code) by {
        if has_code(levels[m].entries, code) {
            let e = entry_of(levels[m].entries, code);
            let k = choose|k: int| 0 <= k < done.len() && done[k] == e;
            assert(all[k] == e);
        }
    }
    if us.len() == 0 {
        assert(all =~= done);
        assert(walk(levels, i, us, r, cap) == levels);
        lemma_walk_end_replaces(levels, i, r, code, done);
    } else {
        let u = us[0];
        assert(u.wf());
        lemma_step_replaces(levels, i, u, r, cap, done);
        lemma_step_keeps_order(levels, i, u, r, cap);
        lemma_step_keeps_wf(levels, i, u, r, cap);
        let (next, j, go_on) = step(levels, i, u, r, cap);
        if go_on {
            let rest = us.drop_first();
            let d2 = done.push(u);
            assert(d2 + rest =~= all);
            assert forall|k: int| 0 <= k < rest.len() implies #[trigger] rest[k].wf() by {
                assert(rest[k] == us[k + 1]);
            }
            assert forall|a: int, b: int| 0 <= a < b < rest.len() implies ranks_before(
                r,
                #[trigger] rest[a].price.value(),
                #[trigger] rest[b].price.value(),
            ) by {
                assert(rest[a] == us[a + 1]);
                assert(rest[b] == us[b + 1]);
            }
            assert forall|k: int| 0 <= k < rest.len() implies (#[trigger] rest[k]).exchange_code@ == code by {
                assert(rest[k] == us[k + 1]);
            }
            if rest.len() > 0 {
                assert(rest[0] == us[1]);
                assert(ranks_before(r, us[0].price.value(), us[1].price.value()));
            }
            lemma_walk_replaces(next, j, rest, r, cap, code, d2);
            assert(walk(levels, i, us, r, cap) == walk(next, j, rest, r, cap));
        } else {
            assert(walk(levels, i, us, r, cap) == next);
            assert forall|m: int| 0 <= m < next.len() implies comes_from(all, #[trigger] next[m], code) by {
                if has_code(next[m].entries, code) {
                    let e = entry_of(next[m].entries, code);
                    assert(comes_from(done, next[m], code));
                    let k = choose|k: int| 0 <= k < done.len() && done[k] == e;
                    assert(all[k] == e);
                }
            }
        }
    }
}

/// After a snapshot side from one exchange, each entry of that exchange at a
/// price no further than the snapshot's last price is one of the snapshot's
/// levels.
pub proof fn lemma_snapshot_replaces_its_exchange(
    levels: Seq<AggregateLevelView>,
    us: Seq<ExchangeLevel>,
    r: Ranking,
    cap: int,
    code: Seq<char>,
)
    requires
        side_wf(levels, r),
        snapshot_ranked(us, r),
        us.len() > 0,
        forall|k: int| 0 <= k < us.len() ==> (#[trigger] us[k]).exchange_code@ == code,
    ensures
        ({
            let out = updated_levels(levels, us, r, cap);
            forall|m: int|
                0 <= m < out.len() && has_code((#[trigger] out[m]).entries, code) && !ranks_before(
                    r,
                    us.last().price.value(),
                    out[m].price.value(),
                ) ==> us.contains(entry_of(out[m].entries, code))
        }),
{
    let w = walk(levels, 0, us, r, cap);
    lemma_walk_replaces(levels, 0, us, r, cap, code, seq![]);
    assert(Seq::<ExchangeLevel>::empty() + us =~= us);
    lemma_compact_members(w);
    let out = compact(w);
    assert forall|m: int|
        0 <= m < out.len() && has_code((#[trigger] out[m]).entries, code) && !ranks_before(
            r,
            us.last().price.value(),
            out[m].price.value(),
        ) implies us.contains(entry_of(out[m].entries, code)) by {
        assert(w.contains(out[m]));
        let k = choose|k: int| 0 <= k < w.len() && w[k] == out[m];
        assert(comes_from(us, w[k], code) || ranks_before(r, us.last().price.value(), w[k].price.value()));
    }
}

/// After a snapshot side from one exchange, no level at a price that the
/// snapshot does not list, and that lies no further than its last price,
/// holds that exchange.
pub proof fn lemma_snapshot_withdraws_missing_prices(
    levels: Seq<AggregateLevelView>,
    us: Seq<ExchangeLevel>,
    r: Ranking,
    cap: int,
    code: Seq<char>,
    p: int,
)
    requires
        side_wf(levels, r),
        snapshot_ranked(us, r),
        us.len() > 0,
        forall|k: int| 0 <= k < us.len() ==> (#[trigger] us[k]).exchange_code@ == code,
        !has_price(us, p),
        !ranks_before(r, us.last().price.value(), p),
    ensures
        ({
            let out = updated_levels(levels, us, r, cap);
            forall|m: int| 0 <= m < out.len() && (#[trigger] out[m]).price.value() == p ==> !has_code(out[m].entries, code)
        }),
{
    lemma_snapshot_replaces_its_exchange(levels, us, r, cap, code);
    lemma_update_keeps_side_wf(levels, us, r, cap);
    let out = updated_levels(levels, us, r, cap);
    assert forall|m: int| 0 <= m < out.len() && (#[trigger] out[m]).price.value() == p implies !has_code(
        out[m].entries,
        code,
    ) by {
        if has_code(out[m].entries, code) {
            let e = entry_of(out[m].entries, code);
            assert(us.contains(e));
            let k = choose|k: int| 0 <= k < us.len() && us[k] == e;
            assert(out[m].wf());
            let ci = code_index(out[m].entries, code);
            assert(out[m].entries[ci].wf());
            assert(us[k].price.value() == p);
        }
    }
}

/// When none of the prices at which an exchange stood appears in its next
/// snapshot side, and none lies past that snapshot's last price, every level
/// at those prices loses that exchange.
pub proof fn lemma_vanished_prices_lose_exchange(
    levels: Seq<AggregateLevelView>,
    us: Seq<ExchangeLevel>,
    r: Ranking,
    cap: int,
    code: Seq<char>,
)
    requires
        side_wf(levels, r),
        snapshot_ranked(us, r),
        us.len() > 0,
        forall|k: int| 0 <= k < us.len() ==> (#[trigger] us[k]).exchange_code@ == code,
        forall|m: int|
            0 <= m < levels.len() && has_code((#[trigger] levels[m]).entries, code) ==> !has_price(
                us,
                levels[m].price.value(),
            ) && !ranks_before(r, us.last().price.value(), levels[m].price.value()),
    ensures
        ({
            let out = updated_levels(levels, us, r, cap);
            forall|m: int, n: int|
                0 <= m < levels.len() && has_code((#[trigger] levels[m]).entries, code) && 0 <= n < out.len()
                    && (#[trigger] out[n]).price.value() == levels[m].price.value() ==> !has_code(out[n].entries, code)
        }),
{
    let out = updated_levels(levels, us, r, cap);
    assert forall|m: int, n: int|
        0 <= m < levels.len() && has_code((#[trigger] levels[m]).entries, code) && 0 <= n < out.len()
            && (#[trigger] out[n]).price.value() == levels[m].price.value() implies !has_code(out[n].entries, code) by {
        lemma_snapshot_withdraws_missing_prices(levels, us, r, cap, code, levels[m].price.value());
    }
}

/// Of two successive snapshot sides from one exchange, the second replaces
/// the first: each entry of that exchange at a price no further than the
/// second snapshot's last price is one of the second snapshot's levels.
pub proof fn lemma_second_snapshot_replaces_first(
    levels: Seq<AggregateLevelView>,
    first: Seq<ExchangeLevel>,
    second: Seq<ExchangeLevel>,
    r: Ranking,
    cap: int,
    code: Seq<char>,
)
    requires
        side_wf(levels, r),
        snapshot_ranked(first, r),
        snapshot_ranked(second, r),
        second.len() > 0,
        forall|k: int| 0 <= k < first.len() ==> (#[trigger] first[k]).exchange_code@ == code,
        forall|k: int| 0 <= k < second.len() ==> (#[trigger] second[k]).exchange_code@ == code,
    ensures
        ({
            let out = updated_levels(updated_levels(levels, first, r, cap), second, r, cap);
            forall|m: int|
                0 <= m < out.len() && has_code((#[trigger] out[m]).entries, code) && !ranks_before(
                    r,
                    second.last().price.value(),
                    out[m].price.value(),
                ) ==> second.contains(entry_of(out[m].entries, code))
        }),
{
    lemma_update_keeps_side_wf(levels, first, r, cap);
    lemma_snapshot_replaces_its_exchange(updated_levels(levels, first, r, cap), second, r, cap, code);
}

/// Price `p` lies strictly between the snapshot levels `k - 1` and `k`
/// (before level `0` for `k == 0`).
pub open spec fn between(us: Seq<ExchangeLevel>, k: int, p: int, r: Ranking) -> bool {
    &&& k == 0 || ranks_before(r, us[k - 1].price.value(), p)
    &&& ranks_before(r, p, us[k].price.value())
}

/// Every snapshot level stands on the side as its exchange's entry at its price.
pub open spec fn holds_snapshot(levels: Seq<AggregateLevelView>, us: Seq<ExchangeLevel>) -> bool {
    forall|k: int|
        0 <= k < us.len() ==> exists|m: int|
            0 <= m < levels.len() && levels[m].price.value() == (#[trigger] us[k]).price.value() && has_code(
                levels[m].entries,
                us[k].exchange_code@,
            ) && entry_of(levels[m].entries, us[k].exchange_code@) == us[k]
}

/// No level strictly between two snapshot levels holds the exchange of the second.
pub open spec fn gaps_withdrawn(levels: Seq<AggregateLevelView>, us: Seq<ExchangeLevel>, r: Ranking) -> bool {
    forall|m: int, k: int|
        0 <= m < levels.len() && 0 <= k < us.len() && between(us, k, (#[trigger] levels[m]).price.value(), r)
            ==> !has_code(levels[m].entries, (#[trigger] us[k]).exchange_code@)
}

proof fn lemma_step_prefix(levels: Seq<AggregateLevelView>, i: int, u: ExchangeLevel, r: Ranking, cap: int)
    requires
        levels_wf(levels),
        u.wf(),
        0 <= i <= levels.len(),
        levels.len() < cap,
    ensures
        ({
            let (next, j, go_on) = step(levels, i, u, r, cap);
            &&& go_on
            &&& i < j <= next.len()
            &&& next.len() <= levels.len() + 1
            &&& forall|m: int| 0 <= m < i ==> next[m] == levels[m]
            &&& has_code(next[j - 1].entries, u.exchange_code@)
            &&& entry_of(next[j - 1].entries, u.exchange_code@) == u
            &&& forall|m: int| i <= m < j - 1 ==> !has_code((#[trigger] next[m]).entries, u.exchange_code@)
        }),
    decreases levels.len() - i,
{
    let c = u.exchange_code@;
    if i >= levels.len() {
        lemma_single_level_at(u);
        assert(levels.push(single_level(u))[levels.len() as int] == single_level(u));
    } else if ranks_before(r, u.price.value(), levels[i].price.value()) {
        lemma_single_level_at(u);
        assert(levels.insert(i, single_level(u))[i] == single_level(u));
    } else if u.price.value() == levels[i].price.value() {
        assert(levels[i].wf());
        lemma_with_entry_at(levels[i], u);
    } else {
        let lv = levels[i];
        assert(lv.wf());
        let nl = AggregateLevelView { price: lv.price, entries: without_code(lv.entries, c) };
        lemma_without_code_wf(lv, c);
        lemma_without_code_gone(lv.entries, c);
        let next = levels.update(i, nl);
        assert forall|k: int| 0 <= k < next.len() implies #[trigger] next[k].wf() by {
            if k != i {
                assert(next[k] == levels[k]);
            }
        }
        lemma_step_prefix(next, i + 1, u, r, cap);
        let (n2, j2, g2) = step(next, i + 1, u, r, cap);
        assert(n2[i] == next[i]);
    }
}

proof fn lemma_prefix_holds_extend(
    levels: Seq<AggregateLevelView>,
    next: Seq<AggregateLevelView>,
    i: int,
    j: int,
    done: Seq<ExchangeLevel>,
    u: ExchangeLevel,
)
    requires
        0 <= i < j <= next.len(),
        i <= levels.len(),
        forall|m: int| 0 <= m < i ==> next[m] == levels[m],
        next[j - 1].price.value() == u.price.value(),
        has_code(next[j - 1].entries, u.exchange_code@),
        entry_of(next[j - 1].entries, u.exchange_code@) == u,
        forall|k: int|
            0 <= k < done.len() ==> exists|m: int|
                0 <= m < i && levels[m].price.value() == (#[trigger] done[k]).price.value() && has_code(
                    levels[m].entries,
                    done[k].exchange_code@,
                ) && entry_of(levels[m].entries, done[k].exchange_code@) == done[k],
    ensures
        forall|k: int|
            0 <= k < done.push(u).len() ==> exists|m: int|
                0 <= m < j && next[m].price.value() == (#[trigger] done.push(u)[k]).price.value() && has_code(
                    next[m].entries,
                    done.push(u)[k].exchange_code@,
                ) && entry_of(next[m].entries, done.push(u)[k].exchange_code@) == done.push(u)[k],
{
    let d2 = done.push(u);
    assert forall|k: int|
        0 <= k < d2.len() implies exists|m: int|
            0 <= m < j && next[m].price.value() == (#[trigger] d2[k]).price.value() && has_code(
                next[m].entries,
                d2[k].exchange_code@,
            ) && entry_of(next[m].entries, d2[k].exchange_code@) == d2[k] by {
        if k < done.len() {
            assert(d2[k] == done[k]);
            let m = choose|m: int|
                0 <= m < i && levels[m].price.value() == done[k].price.value() && has_code(
                    levels[m].entries,
                    done[k].exchange_code@,
                ) && entry_of(levels[m].entries, done[k].exchange_code@) == done[k];
            assert(next[m] == levels[m]);
        } else {
            assert(d2[k] == u);
        }
    }
}

proof fn lemma_prefix_gaps_extend(
    levels: Seq<AggregateLevelView>,
    next: Seq<AggregateLevelView>,
    i: int,
    j: int,
    done: Seq<ExchangeLevel>,
    u: ExchangeLevel,
    r: Ranking,
)
    requires
        0 <= i < j <= next.len(),
        i <= levels.len(),
        strictly_ranked(levels, r),
        strictly_ranked(next, r),
        snapshot_ranked(done, r),
        done.len() == 0 ==> i == 0,
        done.len() > 0 ==> i > 0 && levels[i - 1].price.value() == done.last().price.value()
            && ranks_before(r, done.last().price.value(), u.price.value()),
        forall|m: int| 0 <= m < i ==> next[m] == levels[m],
        next[j - 1].price.value() == u.price.value(),
        forall|m: int| i <= m < j - 1 ==> !has_code((#[trigger] next[m]).entries, u.exchange_code@),
        forall|m: int, k: int|
            0 <= m < i && 0 <= k < done.len() && between(done, k, (#[trigger] levels[m]).price.value(), r)
                ==> !has_code(levels[m].entries, (#[trigger] done[k]).exchange_code@),
    ensures
        forall|m: int, k: int|
            0 <= m < j && 0 <= k < done.push(u).len() && between(done.push(u), k, (#[trigger] next[m]).price.value(), r)
                ==> !has_code(next[m].entries, (#[trigger] done.push(u)[k]).exchange_code@),
{
    let d2 = done.push(u);
    assert forall|m: int, k: int|
        0 <= m < j && 0 <= k < d2.len() && between(d2, k, (#[trigger] next[m]).price.value(), r)
            implies !has_code(next[m].entries, (#[trigger] d2[k]).exchange_code@) by {
        if k < done.len() {
            assert(d2[k] == done[k]);
            if k > 0 {
                assert(d2[k - 1] == done[k - 1]);
            }
            if m < i {
                assert(next[m] == levels[m]);
            } else {
                assert(next[i - 1] == levels[i - 1]);
                assert(ranks_before(r, next[i - 1].price.value(), next[m].price.value()));
                if k < done.len() - 1 {
                    assert(ranks_before(r, done[k].price.value(), done[done.len() - 1].price.value()));
                }
            }
        } else {
            assert(d2[k] == u);
            if m < i {
                assert(next[m] == levels[m]);
                if m < i - 1 {
                    assert(ranks_before(r, levels[m].price.value(), levels[i - 1].price.value()));
                }
                assert(d2[k - 1] == done.last());
            }
        }
    }
}

proof fn lemma_walk_end_holds(levels: Seq<AggregateLevelView>, i: int, r: Ranking, done: Seq<ExchangeLevel>)
    requires
        strictly_ranked(levels, r),
        snapshot_ranked(done, r),
        0 <= i <= levels.len(),
        done.len() > 0 ==> i > 0 && levels[i - 1].price.value() == done.last().price.value(),
        forall|m: int, k: int|
            0 <= m < i && 0 <= k < done.len() && between(done, k, (#[trigger] levels[m]).price.value(), r)
                ==> !has_code(levels[m].entries, (#[trigger] done[k]).exchange_code@),
    ensures
        gaps_withdrawn(levels, done, r),
{
    assert forall|m: int, k: int|
        0 <= m < levels.len() && 0 <= k < done.len() && between(done, k, (#[trigger] levels[m]).price.value(), r)
            implies !has_code(levels[m].entries, (#[trigger] done[k]).exchange_code@) by {
        if m >= i {
            assert(ranks_before(r, levels[i - 1].price.value(), levels[m].price.value()));
            if k < done.len() - 1 {
                assert(ranks_before(r, done[k].price.value(), done[done.len() - 1].price.value()));
            }
        }
    }
}

/// The processed part of a ranked snapshot is ranked, and its last level
/// comes before the next one.
proof fn lemma_ranked_split(done: Seq<ExchangeLevel>, us: Seq<ExchangeLevel>, r: Ranking)
    requires
        snapshot_ranked(done + us, r),
        us.len() > 0,
    ensures
        snapshot_ranked(done, r),
        snapshot_ranked(done.push(us[0]), r),
        us[0].wf(),
        done.len() > 0 ==> ranks_before(r, done.last().price.value(), us[0].price.value()),
        us.len() > 1 ==> ranks_before(r, us[0].price.value(), us[1].price.value()),
{
    let all = done + us;
    let d2 = done.push(us[0]);
    assert(all[done.len() as int] == us[0]);
    assert forall|k: int| 0 <= k < done.len() implies #[trigger] done[k].wf() by {
        assert(all[k] == done[k]);
    }
    assert forall|x: int, y: int| 0 <= x < y < done.len() implies ranks_before(
        r,
        #[trigger] done[x].price.value(),
        #[trigger] done[y].price.value(),
    ) by {
        assert(all[x] == done[x]);
        assert(all[y] == done[y]);
    }
    assert forall|k: int| 0 <= k < d2.len() implies #[trigger] d2[k].wf() by {
        assert(all[k] == d2[k]);
    }
    assert forall|x: int, y: int| 0 <= x < y < d2.len() implies ranks_before(
        r,
        #[trigger] d2[x].price.value(),
        #[trigger] d2[y].price.value(),
    ) by {
        assert(all[x] == d2[x]);
        assert(all[y] == d2[y]);
    }
    if done.len() > 0 {
        assert(all[done.len() - 1] == done.last());
        assert(ranks_before(r, all[done.len() - 1].price.value(), all[done.len() as int].price.value()));
    }
    if us.len() > 1 {
        assert(all[done.len() + 1int] == us[1]);
        assert(ranks_before(r, all[done.len() as int].price.value(), all[done.len() + 1int].price.value()));
    }
}

#[verifier::rlimit(100)]
proof fn lemma_walk_holds_snapshot(
    levels: Seq<AggregateLevelView>,
    i: int,
    us: Seq<ExchangeLevel>,
    r: Ranking,
    cap: int,
    done: Seq<ExchangeLevel>,
)
    requires
        levels_wf(levels),
        strictly_ranked(levels, r),
        snapshot_ranked(done + us, r),
        0 <= i <= levels.len(),
        levels.len() + us.len() <= cap,
        done.len() == 0 ==> i == 0,
        done.len() > 0 ==> i > 0 && levels[i - 1].price.value() == done.last().price.value(),
        i == 0 || us.len() == 0 || ranks_before(r, levels[i - 1].price.value(), us[0].price.value()),
        forall|k: int|
            0 <= k < done.len() ==> exists|m: int|
                0 <= m < i && levels[m].price.value() == (#[trigger] done[k]).price.value() && has_code(
                    levels[m].entries,
                    done[k].exchange_code@,
                ) && entry_of(levels[m].entries, done[k].exchange_code@) == done[k],
        forall|m: int, k: int|
            0 <= m < i && 0 <= k < done.len() && between(done, k, (#[trigger] levels[m]).price.value(), r)
                ==> !has_code(levels[m].entries, (#[trigger] done[k]).exchange_code@),
    ensures
        holds_snapshot(walk(levels, i, us, r, cap), done + us),
        gaps_withdrawn(walk(levels, i, us, r, cap), done + us, r),
    decreases us.len(),
{
    let all = done + us;
    if us.len() == 0 {
        assert(all =~= done);
        assert(walk(levels, i, us, r, cap) == levels);
        lemma_walk_end_holds(levels, i, r, done);
    } else {
        let u = us[0];
        assert(all[done.len() as int] == u);
        assert(u.wf());
        lemma_step_prefix(levels, i, u, r, cap);
        lemma_step_keeps_order(levels, i, u, r, cap);
        lemma_step_keeps_wf(levels, i, u, r, cap);
        let (next, j, go_on) = step(levels, i, u, r, cap);
        let rest = us.drop_first();
        let d2 = done.push(u);
        assert(d2 + rest =~= all);
        assert(walk(levels, i, us, r, cap) == walk(next, j, rest, r, cap));
        assert(d2.last() == u);
        lemma_ranked_split(done, us, r);
        if rest.len() > 0 {
            assert(rest[0] == us[1]);
        }
        lemma_prefix_holds_extend(levels, next, i, j, done, u);
        lemma_prefix_gaps_extend(levels, next, i, j, done, u, r);
        lemma_walk_holds_snapshot(next, j, rest, r, cap, d2);
    }
}

proof fn lemma_compact_keeps_full_levels(levels: Seq<AggregateLevelView>)
    ensures
        forall|m: int| 0 <= m < levels.len() && (#[trigger] levels[m]).entries.len() > 0 ==> compact(levels).contains(levels[m]),
    decreases levels.len(),
{
    if levels.len() > 0 {
        let rest = levels.drop_first();
        lemma_compact_keeps_full_levels(rest);
        assert forall|m: int| 0 <= m < levels.len() && (#[trigger] levels[m]).entries.len() > 0 implies compact(
            levels,
        ).contains(levels[m]) by {
            let c = compact(levels);
            if m == 0 {
                assert(c[0] == levels[0]);
            } else {
                assert(levels[m] == rest[m - 1]);
                let cr = compact(rest);
                assert(cr.contains(rest[m - 1]));
                let w = choose|w: int| 0 <= w < cr.len() && cr[w] == rest[m - 1];
                if levels[0].entries.len() > 0 {
                    assert(c[w + 1] == cr[w]);
                } else {
                    assert(c[w] == cr[w]);
                }
            }
        }
    }
}

proof fn lemma_step_leaves_alone(
    levels: Seq<AggregateLevelView>,
    i: int,
    u: ExchangeLevel,
    r: Ranking,
    cap: int,
    idx: int,
)
    requires
        0 <= i <= idx < levels.len(),
        levels[idx].price.value() == u.price.value(),
        has_code(levels[idx].entries, u.exchange_code@),
        entry_of(levels[idx].entries, u.exchange_code@) == u,
        forall|m: int|
            i <= m < idx ==> ranks_before(r, (#[trigger] levels[m]).price.value(), u.price.value()) && !has_code(
                levels[m].entries,
                u.exchange_code@,
            ),
    ensures
        step(levels, i, u, r, cap) == (levels, idx + 1, true),
    decreases idx - i,
{
    let lv = levels[i];
    if i == idx {
        let k = code_index(lv.entries, u.exchange_code@);
        assert(lv.entries.update(k, u) =~= lv.entries);
        assert(levels.update(i, AggregateLevelView { price: lv.price, entries: with_entry(lv.entries, u) }) =~= levels);
    } else {
        assert(levels.update(i, AggregateLevelView { price: lv.price, entries: without_code(lv.entries, u.exchange_code@) })
            =~= levels);
        lemma_step_leaves_alone(levels, i + 1, u, r, cap, idx);
    }
}

proof fn lemma_walk_leaves_alone(
    levels: Seq<AggregateLevelView>,
    i: int,
    us: Seq<ExchangeLevel>,
    r: Ranking,
    cap: int,
    done: Seq<ExchangeLevel>,
)
    requires
        strictly_ranked(levels, r),
        snapshot_ranked(done + us, r),
        holds_snapshot(levels, done + us),
        gaps_withdrawn(levels, done + us, r),
        0 <= i <= levels.len(),
        done.len() == 0 ==> i == 0,
        done.len() > 0 ==> i > 0 && levels[i - 1].price.value() == done.last().price.value(),
    ensures
        walk(levels, i, us, r, cap) == levels,
    decreases us.len(),
{
    let all = done + us;
    if us.len() > 0 {
        let u = us[0];
        let kk = done.len() as int;
        assert(all[kk] == u);
        let idx = choose|m: int|
            0 <= m < levels.len() && levels[m].price.value() == all[kk].price.value() && has_code(
                levels[m].entries,
                all[kk].exchange_code@,
            ) && entry_of(levels[m].entries, all[kk].exchange_code@) == all[kk];
        if done.len() > 0 {
            assert(all[kk - 1] == done.last());
            assert(ranks_before(r, all[kk - 1].price.value(), all[kk].price.value()));
            if idx <= i - 1 {
                if idx < i - 1 {
                    assert(ranks_before(r, levels[idx].price.value(), levels[i - 1].price.value()));
                }
            }
        }
        assert forall|m: int| i <= m < idx implies ranks_before(r, (#[trigger] levels[m]).price.value(), u.price.value())
            && !has_code(levels[m].entries, u.exchange_code@) by {
            assert(ranks_before(r, levels[m].price.value(), levels[idx].price.value()));
            if done.len() > 0 && m > i - 1 {
                assert(ranks_before(r, levels[i - 1].price.value(), levels[m].price.value()));
            }
            assert(between(all, kk, levels[m].price.value(), r));
        }
        lemma_step_leaves_alone(levels, i, u, r, cap, idx);
        let rest = us.drop_first();
        let d2 = done.push(u);
        assert(d2 + rest =~= all);
        lemma_walk_leaves_alone(levels, idx + 1, rest, r, cap, d2);
    }
}

/// Applying the same snapshot side twice gives the side that applying it
/// once gives, when the side has room for all of the snapshot's levels.
pub proof fn lemma_snapshot_applied_twice(levels: Seq<AggregateLevelView>, us: Seq<ExchangeLevel>, r: Ranking, cap: int)
    requires
        side_wf(levels, r),
        snapshot_ranked(us, r),
        levels.len() + us.len() <= cap,
    ensures
        updated_levels(updated_levels(levels, us, r, cap), us, r, cap) == updated_levels(levels, us, r, cap),
{
    let e = Seq::<ExchangeLevel>::empty();
    assert(e + us =~= us);
    lemma_walk_holds_snapshot(levels, 0, us, r, cap, e);
    let w = walk(levels, 0, us, r, cap);
    let once = compact(w);
    lemma_update_keeps_side_wf(levels, us, r, cap);
    lemma_compact_keeps_full_levels(w);
    lemma_compact_members(w);
    assert forall|k: int| 0 <= k < us.len() implies exists|m: int|
        0 <= m < once.len() && once[m].price.value() == (#[trigger] us[k]).price.value() && has_code(
            once[m].entries,
            us[k].exchange_code@,
        ) && entry_of(once[m].entries, us[k].exchange_code@) == us[k] by {
        let m = choose|m: int|
            0 <= m < w.len() && w[m].price.value() == us[k].price.value() && has_code(
                w[m].entries,
                us[k].exchange_code@,
            ) && entry_of(w[m].entries, us[k].exchange_code@) == us[k];
        assert(w[m].entries.len() > 0);
        assert(once.contains(w[m]));
        let n = choose|n: int| 0 <= n < once.len() && once[n] == w[m];
    }
    assert forall|m: int, k: int|
        0 <= m < once.len() && 0 <= k < us.len() && between(us, k, (#[trigger] once[m]).price.value(), r)
            implies !has_code(once[m].entries, (#[trigger] us[k]).exchange_code@) by {
        assert(w.contains(once[m]));
        let n = choose|n: int| 0 <= n < w.len() && w[n] == once[m];
    }
    lemma_walk_leaves_alone(once, 0, us, r, cap, e);
    lemma_compact_full(once);
}

/// The side holds, at a level of price `p`, the entry `e` of exchange `c`.
pub open spec fn has_entry(levels: Seq<AggregateLevelView>, p: int, c: Seq<char>, e: ExchangeLevel) -> bool {
    exists|m: int|
        0 <= m < levels.len() && (#[trigger] levels[m]).price.value() == p && has_code(levels[m].entries, c)
            && entry_of(levels[m].entries, c) == e
}

/// The entries of a side after a snapshot side `us` from exchange `code`
/// that fits its depth: other exchanges keep theirs; `code` has the
/// snapshot's levels, keeps its entries past the snapshot's last price and
/// loses the others.
pub open spec fn entry_after(
    levels: Seq<AggregateLevelView>,
    us: Seq<ExchangeLevel>,
    r: Ranking,
    code: Seq<char>,
    p: int,
    c: Seq<char>,
    e: ExchangeLevel,
) -> bool {
    if c != code {
        has_entry(levels, p, c, e)
    } else {
        (exists|k: int| 0 <= k < us.len() && (#[trigger] us[k]).price.value() == p && e == us[k]) || (!has_price(us, p)
            && (us.len() == 0 || ranks_before(r, us.last().price.value(), p)) && has_entry(levels, p, c, e))
    }
}

/// Replacing the level at `i` by one at the same price changes the entries at that price only.
proof fn lemma_has_entry_update(levels: Seq<AggregateLevelView>, i: int, nl: AggregateLevelView, r: Ranking)
    requires
        strictly_ranked(levels, r),
        0 <= i < levels.len(),
        nl.price.value() == levels[i].price.value(),
    ensures
        forall|p: int, c: Seq<char>, e: ExchangeLevel|
            #[trigger] has_entry(levels.update(i, nl), p, c, e) == if p == nl.price.value() {
                has_code(nl.entries, c) && entry_of(nl.entries, c) == e
            } else {
                has_entry(levels, p, c, e)
            },
{
    let up = levels.update(i, nl);
    assert forall|p: int, c: Seq<char>, e: ExchangeLevel|
        #[trigger] has_entry(up, p, c, e) == if p == nl.price.value() {
            has_code(nl.entries, c) && entry_of(nl.entries, c) == e
        } else {
            has_entry(levels, p, c, e)
        } by {
        if has_entry(up, p, c, e) {
            let m = choose|m: int|
                0 <= m < up.len() && (#[trigger] up[m]).price.value() == p && has_code(up[m].entries, c)
                    && entry_of(up[m].entries, c) == e;
            if m != i {
                assert(up[m] == levels[m]);
                if p == nl.price.value() {
                    if m < i {
                        assert(ranks_before(r, levels[m].price.value(), levels[i].price.value()));
                    } else {
                        assert(ranks_before(r, levels[i].price.value(), levels[m].price.value()));
                    }
                }
            }
        }
        if p == nl.price.value() {
            if has_code(nl.entries, c) && entry_of(nl.entries, c) == e {
                assert(up[i] == nl);
            }
        } else if has_entry(levels, p, c, e) {
            let m = choose|m: int|
                0 <= m < levels.len() && (#[trigger] levels[m]).price.value() == p && has_code(levels[m].entries, c)
                    && entry_of(levels[m].entries, c) == e;
            assert(up[m] == levels[m]);
        }
    }
}

/// Inserting a level at a price that the side lacks adds the entries at that price only.
proof fn lemma_has_entry_insert(levels: Seq<AggregateLevelView>, i: int, nl: AggregateLevelView)
    requires
        0 <= i <= levels.len(),
        forall|m: int| 0 <= m < levels.len() ==> (#[trigger] levels[m]).price.value() != nl.price.value(),
    ensures
        forall|p: int, c: Seq<char>, e: ExchangeLevel|
            #[trigger] has_entry(levels.insert(i, nl), p, c, e) == if p == nl.price.value() {
                has_code(nl.entries, c) && entry_of(nl.entries, c) == e
            } else {
                has_entry(levels, p, c, e)
            },
{
    let ins = levels.insert(i, nl);
    assert forall|p: int, c: Seq<char>, e: ExchangeLevel|
        #[trigger] has_entry(ins, p, c, e) == if p == nl.price.value() {
            has_code(nl.entries, c) && entry_of(nl.entries, c) == e
        } else {
            has_entry(levels, p, c, e)
        } by {
        if has_entry(ins, p, c, e) {
            let m = choose|m: int|
                0 <= m < ins.len() && (#[trigger] ins[m]).price.value() == p && has_code(ins[m].entries, c)
                    && entry_of(ins[m].entries, c) == e;
            if m < i {
                assert(ins[m] == levels[m]);
            } else if m > i {
                assert(ins[m] == levels[m - 1]);
            }
        }
        if p == nl.price.value() {
            if has_code(nl.entries, c) && entry_of(nl.entries, c) == e {
                assert(ins[i] == nl);
            }
        } else if has_entry(levels, p, c, e) {
            let m = choose|m: int|
                0 <= m < levels.len() && (#[trigger] levels[m]).price.value() == p && has_code(levels[m].entries, c)
                    && entry_of(levels[m].entries, c) == e;
            if m < i {
                assert(ins[m] == levels[m]);
            } else {
                assert(ins[m + 1] == levels[m]);
            }
        }
    }
}

/// Whether price `p` lies past the cursor `i` and before `q`: the range
/// whose levels a snapshot level at `q` withdraws its exchange from.
pub open spec fn in_gap(levels: Seq<AggregateLevelView>, i: int, p: int, q: int, r: Ranking) -> bool {
    &&& (i == 0 || ranks_before(r, levels[i - 1].price.value(), p))
    &&& ranks_before(r, p, q)
}

#[verifier::rlimit(100)]
proof fn lemma_step_entries(levels: Seq<AggregateLevelView>, i: int, u: ExchangeLevel, r: Ranking, cap: int)
    requires
        levels_wf(levels),
        strictly_ranked(levels, r),
        u.wf(),
        0 <= i <= levels.len(),
        i == 0 || ranks_before(r, levels[i - 1].price.value(), u.price.value()),
        levels.len() < cap,
    ensures
        forall|p: int, c: Seq<char>, e: ExchangeLevel|
            #[trigger] has_entry(step(levels, i, u, r, cap).0, p, c, e) == if c != u.exchange_code@ {
                has_entry(levels, p, c, e)
            } else if p == u.price.value() {
                e == u
            } else {
                !in_gap(levels, i, p, u.price.value(), r) && has_entry(levels, p, c, e)
            },
    decreases levels.len() - i,
{
    let code = u.exchange_code@;
    let q = u.price.value();
    let next = step(levels, i, u, r, cap).0;
    if i >= levels.len() || ranks_before(r, q, levels[i].price.value()) {
        let nl = single_level(u);
        lemma_single_level_at(u);
        assert forall|m: int| 0 <= m < levels.len() implies (#[trigger] levels[m]).price.value() != nl.price.value() by {
            if m < i {
                if m < i - 1 {
                    assert(ranks_before(r, levels[m].price.value(), levels[i - 1].price.value()));
                }
            } else if m > i {
                assert(ranks_before(r, levels[i].price.value(), levels[m].price.value()));
            }
        }
        lemma_has_entry_insert(levels, i, nl);
        if i >= levels.len() {
            assert(levels.insert(i, nl) =~= levels.push(nl));
        }
        assert(next == levels.insert(i, nl));
        assert forall|p: int, c: Seq<char>, e: ExchangeLevel|
            #[trigger] has_entry(next, p, c, e) == if c != code {
                has_entry(levels, p, c, e)
            } else if p == q {
                e == u
            } else {
                !in_gap(levels, i, p, q, r) && has_entry(levels, p, c, e)
            } by {
            if c != code && p == q {
                assert(!has_code(nl.entries, c)) by {
                    if has_code(nl.entries, c) {
                        let k = choose|k: int| 0 <= k < nl.entries.len() && nl.entries[k].exchange_code@ == c;
                        assert(nl.entries[k] == u);
                    }
                }
                if has_entry(levels, p, c, e) {
                    let m = choose|m: int|
                        0 <= m < levels.len() && (#[trigger] levels[m]).price.value() == p && has_code(levels[m].entries, c)
                            && entry_of(levels[m].entries, c) == e;
                }
            }
            if c == code && p != q && in_gap(levels, i, p, q, r) && has_entry(levels, p, c, e) {
                let m = choose|m: int|
                    0 <= m < levels.len() && (#[trigger] levels[m]).price.value() == p && has_code(levels[m].entries, c)
                        && entry_of(levels[m].entries, c) == e;
                if m < i {
                    if m < i - 1 {
                        assert(ranks_before(r, levels[m].price.value(), levels[i - 1].price.value()));
                    }
                } else {
                    if m > i {
                        assert(ranks_before(r, levels[i].price.value(), levels[m].price.value()));
                    }
                }
            }
        }
    } else if q == levels[i].price.value() {
        let lv = levels[i];
        assert(lv.wf());
        let nl = AggregateLevelView { price: lv.price, entries: with_entry(lv.entries, u) };
        lemma_with_entry_at(lv, u);
        lemma_has_entry_update(levels, i, nl, r);
        assert forall|p: int, c: Seq<char>, e: ExchangeLevel|
            #[trigger] has_entry(next, p, c, e) == if c != code {
                has_entry(levels, p, c, e)
            } else if p == q {
                e == u
            } else {
                !in_gap(levels, i, p, q, r) && has_entry(levels, p, c, e)
            } by {
            if c != code && p == q {
                lemma_merge_keeps_other_exchanges(lv, u, c);
                if has_entry(levels, p, c, e) {
                    let m = choose|m: int|
                        0 <= m < levels.len() && (#[trigger] levels[m]).price.value() == p && has_code(levels[m].entries, c)
                            && entry_of(levels[m].entries, c) == e;
                    if m < i {
                        assert(ranks_before(r, levels[m].price.value(), levels[i].price.value()));
                    } else if m > i {
                        assert(ranks_before(r, levels[i].price.value(), levels[m].price.value()));
                    }
                }
                if has_code(lv.entries, c) {
                    assert(levels[i].price.value() == p);
                }
            }
            if c == code && p != q && in_gap(levels, i, p, q, r) && has_entry(levels, p, c, e) {
                let m = choose|m: int|
                    0 <= m < levels.len() && (#[trigger] levels[m]).price.value() == p && has_code(levels[m].entries, c)
                        && entry_of(levels[m].entries, c) == e;
                if m < i {
                    if m < i - 1 {
                        assert(ranks_before(r, levels[m].price.value(), levels[i - 1].price.value()));
                    }
                } else if m > i {
                    assert(ranks_before(r, levels[i].price.value(), levels[m].price.value()));
                }
            }
        }
    } else {
        let lv = levels[i];
        assert(lv.wf());
        let nl = AggregateLevelView { price: lv.price, entries: without_code(lv.entries, code) };
        lemma_without_code_wf(lv, code);
        lemma_without_code_gone(lv.entries, code);
        let mid = levels.update(i, nl);
        lemma_has_entry_update(levels, i, nl, r);
        assert forall|k: int| 0 <= k < mid.len() implies #[trigger] mid[k].wf() by {
            if k != i {
                assert(mid[k] == levels[k]);
            }
        }
        assert forall|a: int, b: int| 0 <= a < b < mid.len() implies ranks_before(
            r,
            #[trigger] mid[a].price.value(),
            #[trigger] mid[b].price.value(),
        ) by {
            assert(mid[a].price == levels[a].price);
            assert(mid[b].price == levels[b].price);
        }
        lemma_step_entries(mid, i + 1, u, r, cap);
        assert(next == step(mid, i + 1, u, r, cap).0);
        assert forall|p: int, c: Seq<char>, e: ExchangeLevel|
            #[trigger] has_entry(next, p, c, e) == if c != code {
                has_entry(levels, p, c, e)
            } else if p == q {
                e == u
            } else {
                !in_gap(levels, i, p, q, r) && has_entry(levels, p, c, e)
            } by {
            assert(has_entry(next, p, c, e) == if c != code {
                has_entry(mid, p, c, e)
            } else if p == q {
                e == u
            } else {
                !in_gap(mid, i + 1, p, q, r) && has_entry(mid, p, c, e)
            });
            if c != code {
                if p == levels[i].price.value() {
                    lemma_without_code_keeps_others(lv, code, c);
                    if has_entry(levels, p, c, e) {
                        let m = choose|m: int|
                            0 <= m < levels.len() && (#[trigger] levels[m]).price.value() == p && has_code(levels[m].entries, c)
                                && entry_of(levels[m].entries, c) == e;
                        if m < i {
                            assert(ranks_before(r, levels[m].price.value(), levels[i].price.value()));
                        } else if m > i {
                            assert(ranks_before(r, levels[i].price.value(), levels[m].price.value()));
                        }
                    }
                }
            } else if p != q {
                assert(mid[i].price == levels[i].price);
                if p == levels[i].price.value() {
                } else if in_gap(levels, i, p, q, r) && !in_gap(mid, i + 1, p, q, r) && has_entry(levels, p, c, e) {
                    let m = choose|m: int|
                        0 <= m < levels.len() && (#[trigger] levels[m]).price.value() == p && has_code(levels[m].entries, c)
                            && entry_of(levels[m].entries, c) == e;
                    if m < i {
                        if m < i - 1 {
                            assert(ranks_before(r, levels[m].price.value(), levels[i - 1].price.value()));
                        }
                    } else if m > i {
                        assert(ranks_before(r, levels[i].price.value(), levels[m].price.value()));
                    }
                } else if !in_gap(levels, i, p, q, r) && in_gap(mid, i + 1, p, q, r) {
                    if i > 0 {
                        assert(ranks_before(r, levels[i - 1].price.value(), levels[i].price.value()));
                    }
                }
            }
        }
    }
}

proof fn lemma_step_len(levels: Seq<AggregateLevelView>, i: int, u: ExchangeLevel, r: Ranking, cap: int)
    ensures
        step(levels, i, u, r, cap).0.len() <= levels.len() + 1,
    decreases levels.len() - i,
{
    if 0 <= i < levels.len() && !ranks_before(r, u.price.value(), levels[i].price.value())
        && u.price.value() != levels[i].price.value() {
        let lv = levels[i];
        lemma_step_len(
            levels.update(i, AggregateLevelView { price: lv.price, entries: without_code(lv.entries, u.exchange_code@) }),
            i + 1,
            u,
            r,
            cap,
        );
    }
}

proof fn lemma_walk_len(levels: Seq<AggregateLevelView>, i: int, us: Seq<ExchangeLevel>, r: Ranking, cap: int)
    ensures
        walk(levels, i, us, r, cap).len() <= levels.len() + us.len(),
    decreases us.len(),
{
    if us.len() > 0 {
        lemma_step_len(levels, i, us[0], r, cap);
        let (next, j, go_on) = step(levels, i, us[0], r, cap);
        if go_on {
            lemma_walk_len(next, j, us.drop_first(), r, cap);
        }
    }
}

proof fn lemma_compact_len(levels: Seq<AggregateLevelView>)
    ensures
        compact(levels).len() <= levels.len(),
    decreases levels.len(),
{
    if levels.len() > 0 {
        lemma_compact_len(levels.drop_first());
    }
}

/// A snapshot side never adds more levels than it has.
pub proof fn lemma_update_len(levels: Seq<AggregateLevelView>, us: Seq<ExchangeLevel>, r: Ranking, cap: int)
    ensures
        updated_levels(levels, us, r, cap).len() <= levels.len() + us.len(),
{
    lemma_walk_len(levels, 0, us, r, cap);
    lemma_compact_len(walk(levels, 0, us, r, cap));
}

proof fn lemma_entry_after_step(
    base: Seq<AggregateLevelView>,
    done: Seq<ExchangeLevel>,
    u: ExchangeLevel,
    r: Ranking,
    code: Seq<char>,
    p: int,
    e: ExchangeLevel,
)
    requires
        snapshot_ranked(done.push(u), r),
        p != u.price.value(),
    ensures
        entry_after(base, done.push(u), r, code, p, code, e) == (!((done.len() == 0 || ranks_before(
            r,
            done.last().price.value(),
            p,
        )) && ranks_before(r, p, u.price.value())) && entry_after(base, done, r, code, p, code, e)),
{
    let d2 = done.push(u);
    assert(d2.last() == u);
    assert(d2[done.len() as int] == u);
    if done.len() > 0 {
        assert(d2[done.len() - 1] == done.last());
        assert(ranks_before(r, d2[done.len() - 1].price.value(), d2[done.len() as int].price.value()));
    }
    let a = exists|k: int| 0 <= k < done.len() && (#[trigger] done[k]).price.value() == p && e == done[k];
    let a2 = exists|k: int| 0 <= k < d2.len() && (#[trigger] d2[k]).price.value() == p && e == d2[k];
    if a {
        let k = choose|k: int| 0 <= k < done.len() && (#[trigger] done[k]).price.value() == p && e == done[k];
        assert(d2[k] == done[k]);
        if k < done.len() - 1 {
            assert(ranks_before(r, d2[k].price.value(), d2[done.len() - 1].price.value()));
        }
    }
    if a2 {
        let k = choose|k: int| 0 <= k < d2.len() && (#[trigger] d2[k]).price.value() == p && e == d2[k];
        assert(d2[k] == done[k]);
    }
    if has_price(d2, p) {
        let k = choose|k: int| 0 <= k < d2.len() && (#[trigger] d2[k]).price.value() == p;
        assert(d2[k] == done[k]);
    }
    if has_price(done, p) {
        let k = choose|k: int| 0 <= k < done.len() && (#[trigger] done[k]).price.value() == p;
        assert(d2[k] == done[k]);
    }
}

proof fn lemma_entry_after_at(
    base: Seq<AggregateLevelView>,
    done: Seq<ExchangeLevel>,
    u: ExchangeLevel,
    r: Ranking,
    code: Seq<char>,
    e: ExchangeLevel,
)
    requires
        snapshot_ranked(done.push(u), r),
    ensures
        entry_after(base, done.push(u), r, code, u.price.value(), code, e) == (e == u),
{
    let d2 = done.push(u);
    assert(d2[done.len() as int] == u);
    let a2 = exists|k: int| 0 <= k < d2.len() && (#[trigger] d2[k]).price.value() == u.price.value() && e == d2[k];
    if a2 {
        let k = choose|k: int| 0 <= k < d2.len() && (#[trigger] d2[k]).price.value() == u.price.value() && e == d2[k];
        if k < done.len() {
            assert(ranks_before(r, d2[k].price.value(), d2[done.len() as int].price.value()));
        }
    }
}

#[verifier::rlimit(100)]
proof fn lemma_walk_entries(
    levels: Seq<AggregateLevelView>,
    i: int,
    us: Seq<ExchangeLevel>,
    r: Ranking,
    cap: int,
    code: Seq<char>,
    done: Seq<ExchangeLevel>,
    base: Seq<AggregateLevelView>,
)
    requires
        levels_wf(levels),
        strictly_ranked(levels, r),
        snapshot_ranked(done + us, r),
        forall|k: int| 0 <= k < us.len() ==> (#[trigger] us[k]).exchange_code@ == code,
        0 <= i <= levels.len(),
        levels.len() + us.len() <= cap,
        done.len() == 0 ==> i == 0,
        done.len() > 0 ==> i > 0 && levels[i - 1].price.value() == done.last().price.value(),
        forall|p: int, c: Seq<char>, e: ExchangeLevel|
            #[trigger] has_entry(levels, p, c, e) == entry_after(base, done, r, code, p, c, e),
    ensures
        forall|p: int, c: Seq<char>, e: ExchangeLevel|
            #[trigger] has_entry(walk(levels, i, us, r, cap), p, c, e) == entry_after(base, done + us, r, code, p, c, e),
    decreases us.len(),
{
    let all = done + us;
    if us.len() == 0 {
        assert(all =~= done);
    } else {
        let u = us[0];
        assert(all[done.len() as int] == u);
        assert(u.wf());
        let d2 = done.push(u);
        let rest = us.drop_first();
        assert(d2 + rest =~= all);
        assert(snapshot_ranked(d2, r)) by {
            assert forall|k: int| 0 <= k < d2.len() implies #[trigger] d2[k].wf() by {
                assert(d2[k] == all[k]);
            }
            assert forall|x: int, y: int| 0 <= x < y < d2.len() implies ranks_before(
                r,
                #[trigger] d2[x].price.value(),
                #[trigger] d2[y].price.value(),
            ) by {
                assert(d2[x] == all[x]);
                assert(d2[y] == all[y]);
            }
        }
        if done.len() > 0 {
            assert(d2[done.len() - 1] == done.last());
            assert(ranks_before(r, d2[done.len() - 1].price.value(), d2[done.len() as int].price.value()));
        }
        lemma_step_entries(levels, i, u, r, cap);
        lemma_step_prefix(levels, i, u, r, cap);
        lemma_step_keeps_order(levels, i, u, r, cap);
        lemma_step_keeps_wf(levels, i, u, r, cap);
        let (next, j, go_on) = step(levels, i, u, r, cap);
        assert(walk(levels, i, us, r, cap) == walk(next, j, rest, r, cap));
        assert forall|p: int, c: Seq<char>, e: ExchangeLevel|
            #[trigger] has_entry(next, p, c, e) == entry_after(base, d2, r, code, p, c, e) by {
            if c == code {
                if p == u.price.value() {
                    lemma_entry_after_at(base, done, u, r, code, e);
                } else {
                    lemma_entry_after_step(base, done, u, r, code, p, e);
                }
            }
        }
        if rest.len() > 0 {
            assert(rest[0] == us[1]);
            assert(all[done.len() + 1int] == us[1]);
            assert(ranks_before(r, all[done.len() as int].price.value(), all[done.len() + 1int].price.value()));
        }
        assert forall|k: int| 0 <= k < rest.len() implies (#[trigger] rest[k]).exchange_code@ == code by {
            assert(rest[k] == us[k + 1]);
        }
        lemma_walk_entries(next, j, rest, r, cap, code, d2, base);
    }
}

/// What a snapshot side from exchange `code` that fits the side's depth does
/// to the entries of the side, price by price and exchange by exchange.
pub proof fn lemma_update_entries(
    levels: Seq<AggregateLevelView>,
    us: Seq<ExchangeLevel>,
    r: Ranking,
    cap: int,
    code: Seq<char>,
)
    requires
        side_wf(levels, r),
        snapshot_ranked(us, r),
        forall|k: int| 0 <= k < us.len() ==> (#[trigger] us[k]).exchange_code@ == code,
        levels.len() + us.len() <= cap,
    ensures
        forall|p: int, c: Seq<char>, e: ExchangeLevel|
            #[trigger] has_entry(updated_levels(levels, us, r, cap), p, c, e) == entry_after(levels, us, r, code, p, c, e),
{
    let none = Seq::<ExchangeLevel>::empty();
    assert(none + us =~= us);
    assert forall|p: int, c: Seq<char>, e: ExchangeLevel|
        #[trigger] has_entry(levels, p, c, e) == entry_after(levels, none, r, code, p, c, e) by {
        if has_price(none, p) {
            let k = choose|k: int| 0 <= k < none.len() && (#[trigger] none[k]).price.value() == p;
        }
    }
    lemma_walk_entries(levels, 0, us, r, cap, code, none, levels);
    let w = walk(levels, 0, us, r, cap);
    let out = compact(w);
    lemma_compact_members(w);
    lemma_compact_keeps_full_levels(w);
    assert forall|p: int, c: Seq<char>, e: ExchangeLevel|
        #[trigger] has_entry(out, p, c, e) == has_entry(w, p, c, e) by {
        if has_entry(out, p, c, e) {
            let m = choose|m: int|
                0 <= m < out.len() && (#[trigger] out[m]).price.value() == p && has_code(out[m].entries, c)
                    && entry_of(out[m].entries, c) == e;
            assert(w.contains(out[m]));
            let n = choose|n: int| 0 <= n < w.len() && w[n] == out[m];
        }
        if has_entry(w, p, c, e) {
            let m = choose|m: int|
                0 <= m < w.len() && (#[trigger] w[m]).price.value() == p && has_code(w[m].entries, c)
                    && entry_of(w[m].entries, c) == e;
            assert(w[m].entries.len() > 0);
            assert(out.contains(w[m]));
            let n = choose|n: int| 0 <= n < out.len() && out[n] == w[m];
        }
    }
}

/// Snapshot sides from two different exchanges, applied in either order to a
/// side with room for all their levels, leave the same entries at the same
/// prices.
pub proof fn lemma_snapshots_commute(
    levels: Seq<AggregateLevelView>,
    first: Seq<ExchangeLevel>,
    second: Seq<ExchangeLevel>,
    r: Ranking,
    cap: int,
    first_code: Seq<char>,
    second_code: Seq<char>,
)
    requires
        side_wf(levels, r),
        snapshot_ranked(first, r),
        snapshot_ranked(second, r),
        forall|k: int| 0 <= k < first.len() ==> (#[trigger] first[k]).exchange_code@ == first_code,
        forall|k: int| 0 <= k < second.len() ==> (#[trigger] second[k]).exchange_code@ == second_code,
        first_code != second_code,
        levels.len() + first.len() + second.len() <= cap,
    ensures
        forall|p: int, c: Seq<char>, e: ExchangeLevel|
            #[trigger] has_entry(updated_levels(updated_levels(levels, first, r, cap), second, r, cap), p, c, e)
                == has_entry(updated_levels(updated_levels(levels, second, r, cap), first, r, cap), p, c, e),
{
    let a = updated_levels(levels, first, r, cap);
    let b = updated_levels(levels, second, r, cap);
    lemma_update_keeps_side_wf(levels, first, r, cap);
    lemma_update_keeps_side_wf(levels, second, r, cap);
    lemma_update_len(levels, first, r, cap);
    lemma_update_len(levels, second, r, cap);
    lemma_update_entries(levels, first, r, cap, first_code);
    lemma_update_entries(levels, second, r, cap, second_code);
    lemma_update_entries(a, second, r, cap, second_code);
    lemma_update_entries(b, first, r, cap, first_code);
    let ab = updated_levels(a, second, r, cap);
    let ba = updated_levels(b, first, r, cap);
    assert forall|p: int, c: Seq<char>, e: ExchangeLevel|
        #[trigger] has_entry(ab, p, c, e) == has_entry(ba, p, c, e) by {
        assert(has_entry(ab, p, c, e) == entry_after(a, second, r, second_code, p, c, e));
        assert(has_entry(ba, p, c, e) == entry_after(b, first, r, first_code, p, c, e));
        assert(has_entry(a, p, c, e) == entry_after(levels, first, r, first_code, p, c, e));
        assert(has_entry(b, p, c, e) == entry_after(levels, second, r, second_code, p, c, e));
    }
}

// ---------------------------------------------------------------------------
// A merge at a price the side already holds

proof fn lemma_step_keeps_prefix(levels: Seq<AggregateLevelView>, i: int, u: ExchangeLevel, r: Ranking, cap: int)
    requires
        0 <= i <= levels.len(),
    ensures
        step(levels, i, u, r, cap).0.len() >= levels.len(),
        forall|m: int| 0 <= m < i ==> step(levels, i, u, r, cap).0[m] == levels[m],
        step(levels, i, u, r, cap).2 ==> step(levels, i, u, r, cap).1 > i,
    decreases levels.len() - i,
{
    if i >= levels.len() {
        if levels.len() < cap {
            assert forall|m: int| 0 <= m < i implies levels.push(single_level(u))[m] == levels[m] by {}
        }
    } else if ranks_before(r, u.price.value(), levels[i].price.value()) {
        assert forall|m: int| 0 <= m < i implies levels.insert(i, single_level(u))[m] == levels[m] by {}
    } else if u.price.value() == levels[i].price.value() {
    } else {
        let lv = levels[i];
        let next = levels.update(i, AggregateLevelView { price: lv.price, entries: without_code(lv.entries, u.exchange_code@) });
        lemma_step_keeps_prefix(next, i + 1, u, r, cap);
        assert(step(levels, i, u, r, cap) == step(next, i + 1, u, r, cap));
        assert forall|m: int| 0 <= m < i implies next[m] == levels[m] by {}
    }
}

proof fn lemma_walk_keeps_prefix(levels: Seq<AggregateLevelView>, i: int, us: Seq<ExchangeLevel>, r: Ranking, cap: int)
    requires
        0 <= i <= levels.len(),
    ensures
        walk(levels, i, us, r, cap).len() >= i,
        forall|m: int| 0 <= m < i ==> walk(levels, i, us, r, cap)[m] == levels[m],
    decreases us.len(),
{
    if us.len() > 0 {
        lemma_step_keeps_prefix(levels, i, us[0], r, cap);
        lemma_step_cursor_in_range(levels, i, us[0], r, cap);
        let (next, j, go_on) = step(levels, i, us[0], r, cap);
        if go_on {
            lemma_walk_keeps_prefix(next, j, us.drop_first(), r, cap);
        }
    }
}

proof fn lemma_step_cursor_in_range(levels: Seq<AggregateLevelView>, i: int, u: ExchangeLevel, r: Ranking, cap: int)
    requires
        0 <= i <= levels.len(),
    ensures
        step(levels, i, u, r, cap).2 ==> step(levels, i, u, r, cap).1 <= step(levels, i, u, r, cap).0.len(),
    decreases levels.len() - i,
{
    if i < levels.len() && !ranks_before(r, u.price.value(), levels[i].price.value()) && u.price.value()
        != levels[i].price.value() {
        let lv = levels[i];
        let next = levels.update(i, AggregateLevelView { price: lv.price, entries: without_code(lv.entries, u.exchange_code@) });
        lemma_step_cursor_in_range(next, i + 1, u, r, cap);
    }
}

/// A snapshot level before the level at `t` passes it by: the step goes on
/// and that level stands unchanged at or after the new cursor.
proof fn lemma_step_before_target(levels: Seq<AggregateLevelView>, i: int, u: ExchangeLevel, r: Ranking, cap: int, t: int)
    requires
        0 <= i <= t < levels.len(),
        ranks_before(r, u.price.value(), levels[t].price.value()),
        forall|m: int| i <= m < t ==> !ranks_before(r, levels[t].price.value(), (#[trigger] levels[m]).price.value()),
    ensures
        ({
            let (next, j, go_on) = step(levels, i, u, r, cap);
            &&& go_on
            &&& exists|t2: int| j <= t2 < next.len() && next[t2] == levels[t]
        }),
    decreases t - i,
{
    let lv = levels[i];
    let (next, j, go_on) = step(levels, i, u, r, cap);
    if ranks_before(r, u.price.value(), lv.price.value()) {
        assert(next[t + 1] == levels[t]);
    } else if u.price.value() == lv.price.value() {
        assert(i != t);
        assert(next[t] == levels[t]);
    } else {
        assert(i != t);
        let mid = levels.update(i, AggregateLevelView { price: lv.price, entries: without_code(lv.entries, u.exchange_code@) });
        assert(mid[t] == levels[t]);
        assert forall|m: int| i + 1 <= m < t implies !ranks_before(r, mid[t].price.value(), (#[trigger] mid[m]).price.value()) by {
            assert(mid[m] == levels[m]);
        }
        lemma_step_before_target(mid, i + 1, u, r, cap, t);
    }
}

/// A snapshot level at the price of the level at `t`, with only levels
/// before that price in between, merges into that level.
proof fn lemma_step_merges_at(levels: Seq<AggregateLevelView>, i: int, u: ExchangeLevel, r: Ranking, cap: int, t: int)
    requires
        0 <= i <= t < levels.len(),
        levels[t].price.value() == u.price.value(),
        forall|m: int| i <= m < t ==> ranks_before(r, (#[trigger] levels[m]).price.value(), u.price.value()),
    ensures
        ({
            let (next, j, go_on) = step(levels, i, u, r, cap);
            &&& go_on
            &&& j == t + 1
            &&& t < next.len()
            &&& next[t] == (AggregateLevelView {
                price: levels[t].price,
                entries: with_entry(levels[t].entries, u),
            })
        }),
    decreases t - i,
{
    if i < t {
        let lv = levels[i];
        let mid = levels.update(i, AggregateLevelView { price: lv.price, entries: without_code(lv.entries, u.exchange_code@) });
        assert(mid[t] == levels[t]);
        assert forall|m: int| i + 1 <= m < t implies ranks_before(r, (#[trigger] mid[m]).price.value(), u.price.value()) by {
            assert(mid[m] == levels[m]);
        }
        lemma_step_merges_at(mid, i + 1, u, r, cap, t);
    }
}

proof fn lemma_walk_merges_at(
    levels: Seq<AggregateLevelView>,
    i: int,
    us: Seq<ExchangeLevel>,
    r: Ranking,
    cap: int,
    k: int,
    t: int,
    target: AggregateLevelView,
)
    requires
        strictly_ranked(levels, r),
        snapshot_ranked(us, r),
        0 <= k < us.len(),
        0 <= i <= t < levels.len(),
        levels[t] == target,
        target.price.value() == us[k].price.value(),
        i == 0 || ranks_before(r, levels[i - 1].price.value(), us[0].price.value()),
    ensures
        exists|n: int|
            0 <= n < walk(levels, i, us, r, cap).len() && walk(levels, i, us, r, cap)[n] == (AggregateLevelView {
                price: target.price,
                entries: with_entry(target.entries, us[k]),
            }),
    decreases k,
{
    let u = us[0];
    let rest = us.drop_first();
    lemma_step_keeps_order(levels, i, u, r, cap);
    let (next, j, go_on) = step(levels, i, u, r, cap);
    if k == 0 {
        assert forall|m: int| i <= m < t implies ranks_before(r, (#[trigger] levels[m]).price.value(), u.price.value()) by {
            assert(ranks_before(r, levels[m].price.value(), levels[t].price.value()));
        }
        lemma_step_merges_at(levels, i, u, r, cap, t);
        lemma_walk_keeps_prefix(next, j, rest, r, cap);
        assert(walk(levels, i, us, r, cap) == walk(next, j, rest, r, cap));
        assert(walk(levels, i, us, r, cap)[t] == next[t]);
    } else {
        assert(ranks_before(r, us[0].price.value(), us[k].price.value()));
        assert forall|m: int| i <= m < t implies !ranks_before(r, levels[t].price.value(), (#[trigger] levels[m]).price.value()) by {
            assert(ranks_before(r, levels[m].price.value(), levels[t].price.value()));
        }
        lemma_step_before_target(levels, i, u, r, cap, t);
        let t2 = choose|t2: int| j <= t2 < next.len() && next[t2] == levels[t];
        assert(rest[k - 1] == us[k]);
        assert(rest[0] == us[1]);
        assert(ranks_before(r, us[0].price.value(), us[1].price.value()));
        assert forall|x: int| 0 <= x < rest.len() implies #[trigger] rest[x].wf() by {
            assert(rest[x] == us[x + 1]);
        }
        assert forall|a: int, b: int| 0 <= a < b < rest.len() implies ranks_before(
            r,
            #[trigger] rest[a].price.value(),
            #[trigger] rest[b].price.value(),
        ) by {
            assert(rest[a] == us[a + 1]);
            assert(rest[b] == us[b + 1]);
        }
        assert(walk(levels, i, us, r, cap) == walk(next, j, rest, r, cap));
        lemma_walk_merges_at(next, j, rest, r, cap, k - 1, t2, target);
    }
}

/// The level `lv` is `held` after merging `u`: at the same price, holding
/// `u` for its exchange and the entries of the other exchanges unchanged.
pub open spec fn merged_into(lv: AggregateLevelView, held: AggregateLevelView, u: ExchangeLevel) -> bool {
    &&& lv.price == held.price
    &&& has_code(lv.entries, u.exchange_code@)
    &&& entry_of(lv.entries, u.exchange_code@) == u
    &&& forall|c: Seq<char>|
        c != u.exchange_code@ ==> (#[trigger] has_code(lv.entries, c) == has_code(held.entries, c) && (has_code(
            held.entries,
            c,
        ) ==> entry_of(lv.entries, c) == entry_of(held.entries, c)))
}

/// A snapshot level at a price the side already holds always merges into
/// that level, whatever the side's depth: the level then holds the snapshot
/// level for its exchange and the entries of the other exchanges unchanged.
pub proof fn lemma_merge_at_held_price(
    levels: Seq<AggregateLevelView>,
    us: Seq<ExchangeLevel>,
    r: Ranking,
    cap: int,
    k: int,
    m: int,
)
    requires
        side_wf(levels, r),
        snapshot_ranked(us, r),
        0 <= k < us.len(),
        0 <= m < levels.len(),
        levels[m].price.value() == us[k].price.value(),
    ensures
        exists|n: int|
            0 <= n < updated_levels(levels, us, r, cap).len() && merged_into(
                #[trigger] updated_levels(levels, us, r, cap)[n],
                levels[m],
                us[k],
            ),
{
    let target = levels[m];
    let u = us[k];
    assert(target.wf());
    assert(u.wf());
    lemma_walk_merges_at(levels, 0, us, r, cap, k, m, target);
    let w = walk(levels, 0, us, r, cap);
    let merged = AggregateLevelView { price: target.price, entries: with_entry(target.entries, u) };
    let n0 = choose|n: int| 0 <= n < w.len() && w[n] == merged;
    lemma_with_entry_at(target, u);
    assert(merged.entries.len() > 0);
    lemma_compact_keeps_full_levels(w);
    let out = compact(w);
    assert(out.contains(w[n0]));
    let n = choose|n: int| 0 <= n < out.len() && out[n] == merged;
    assert forall|c: Seq<char>| c != u.exchange_code@ implies (#[trigger] has_code(merged.entries, c) == has_code(
        target.entries,
        c,
    ) && (has_code(target.entries, c) ==> entry_of(merged.entries, c) == entry_of(target.entries, c))) by {
        lemma_merge_keeps_other_exchanges(target, u, c);
    }
    assert(out[n] == merged);
    assert(merged_into(out[n], target, u));
    assert(updated_levels(levels, us, r, cap) == out);
    assert(merged_into(updated_levels(levels, us, r, cap)[n], levels[m], us[k]));
}

} // verus!
