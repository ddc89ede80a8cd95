//! One side of the consolidated book, and the pass that applies one side
//! of an exchange snapshot to it.

use vstd::prelude::*;
use crate::book::ExchangeLevel;
use crate::decimal::Decimal;
use crate::level::{AggregateLevel, AggregateLevelView, lemma_with_entry_wf, lemma_without_code_wf, single_level, sort_by_amount, with_entry, without_code};

verus! {

/// How prices follow one another within a side.
#[derive(PartialEq, Eq, Structural, Debug, Clone, Copy)]
pub enum Ranking {
    /// Lower prices first (asks).
    LessFirst,
    /// Higher prices first (bids).
    GreaterFirst,
}

/// Whether price `a` comes strictly before price `b` under ranking `r`.
pub open spec fn ranks_before(r: Ranking, a: int, b: int) -> bool {
    match r {
        Ranking::LessFirst => a < b,
        Ranking::GreaterFirst => a > b,
    }
}

/// The models of a sequence of aggregate levels.
pub open spec fn level_views(data: Seq<AggregateLevel>) -> Seq<AggregateLevelView> {
    data.map_values(|l: AggregateLevel| l@)
}

/// Prices strictly follow the ranking: no price comes twice.
pub open spec fn strictly_ranked(levels: Seq<AggregateLevelView>, r: Ranking) -> bool {
    forall|i: int, j: int|
        0 <= i < j < levels.len() ==> ranks_before(
            r,
            #[trigger] levels[i].price.value(),
            #[trigger] levels[j].price.value(),
        )
}

/// Every level is well formed.
pub open spec fn levels_wf(levels: Seq<AggregateLevelView>) -> bool {
    forall|i: int| 0 <= i < levels.len() ==> #[trigger] levels[i].wf()
}

/// No level is left without an exchange.
pub open spec fn no_empty_level(levels: Seq<AggregateLevelView>) -> bool {
    forall|i: int| 0 <= i < levels.len() ==> #[trigger] levels[i].entries.len() > 0
}

/// The invariant of a side: well-formed levels, none empty, strictly ranked.
pub open spec fn side_wf(levels: Seq<AggregateLevelView>, r: Ranking) -> bool {
    &&& levels_wf(levels)
    &&& no_empty_level(levels)
    &&& strictly_ranked(levels, r)
}

/// A snapshot side: well-formed levels with prices strictly following the ranking.
pub open spec fn snapshot_ranked(us: Seq<ExchangeLevel>, r: Ranking) -> bool {
    &&& forall|k: int| 0 <= k < us.len() ==> #[trigger] us[k].wf()
    &&& forall|i: int, j: int|
        0 <= i < j < us.len() ==> ranks_before(
            r,
            #[trigger] us[i].price.value(),
            #[trigger] us[j].price.value(),
        )
}

/// One snapshot level `u` applied at cursor `i`: the levels between the cursor
/// and `u`'s price lose `u`'s exchange, then `u` is merged into the level at
/// its price or inserted as a new level. The flag is `false` when the cursor
/// has passed every level and the side already holds `cap` levels: `u` and
/// the rest of the snapshot lie beyond the depth kept.
pub open spec fn step(
    levels: Seq<AggregateLevelView>,
    i: int,
    u: ExchangeLevel,
    r: Ranking,
    cap: int,
) -> (Seq<AggregateLevelView>, int, bool)
    decreases levels.len() - i,
{
    if i < 0 {
        (levels, i, false)
    } else if i >= levels.len() {
        if levels.len() >= cap {
            (levels, i, false)
        } else {
            (levels.push(single_level(u)), levels.len() + 1int, true)
        }
    } else if ranks_before(r, u.price.value(), levels[i].price.value()) {
        (levels.insert(i, single_level(u)), i + 1, true)
    } else if u.price.value() == levels[i].price.value() {
        (
            levels.update(
                i,
                AggregateLevelView { price: levels[i].price, entries: with_entry(levels[i].entries, u) },
            ),
            i + 1,
            true,
        )
    } else {
        step(
            levels.update(
                i,
                AggregateLevelView {
                    price: levels[i].price,
                    entries: without_code(levels[i].entries, u.exchange_code@),
                },
            ),
            i + 1,
            u,
            r,
            cap,
        )
    }
}

/// The snapshot levels `us` applied one after the other from cursor `i`,
/// until one of them lies beyond the depth kept.
pub open spec fn walk(
    levels: Seq<AggregateLevelView>,
    i: int,
    us: Seq<ExchangeLevel>,
    r: Ranking,
    cap: int,
) -> Seq<AggregateLevelView>
    decreases us.len(),
{
    if us.len() == 0 {
        levels
    } else {
        let (next, j, go_on) = step(levels, i, us[0], r, cap);
        if go_on {
            walk(next, j, us.drop_first(), r, cap)
        } else {
            next
        }
    }
}

/// The levels that still hold an exchange, in order.
pub open spec fn compact(levels: Seq<AggregateLevelView>) -> Seq<AggregateLevelView>
    decreases levels.len(),
{
    if levels.len() == 0 {
        seq![]
    } else if levels[0].entries.len() > 0 {
        seq![levels[0]] + compact(levels.drop_first())
    } else {
        compact(levels.drop_first())
    }
}

/// A side after a snapshot side `us` from one exchange.
pub open spec fn updated_levels(
    levels: Seq<AggregateLevelView>,
    us: Seq<ExchangeLevel>,
    r: Ranking,
    cap: int,
) -> Seq<AggregateLevelView> {
    compact(walk(levels, 0, us, r, cap))
}

/// The exchange levels of a side, level after level, each level's largest amount first.
pub open spec fn ranked_entries(levels: Seq<AggregateLevelView>) -> Seq<ExchangeLevel>
    decreases levels.len(),
{
    if levels.len() == 0 {
        seq![]
    } else {
        ranked_entries(levels.drop_last()) + sort_by_amount(levels.last().entries)
    }
}

/// `s` cut to at most `n` items.
pub open spec fn at_most(s: Seq<ExchangeLevel>, n: int) -> Seq<ExchangeLevel> {
    if s.len() <= n {
        s
    } else {
        s.take(n)
    }
}

pub(crate) proof fn lemma_step_keeps_wf(levels: Seq<AggregateLevelView>, i: int, u: ExchangeLevel, r: Ranking, cap: int)
    requires
        levels_wf(levels),
        u.wf(),
        0 <= i,
    ensures
        levels_wf(step(levels, i, u, r, cap).0),
        step(levels, i, u, r, cap).2 ==> 0 <= step(levels, i, u, r, cap).1 <= step(levels, i, u, r, cap).0.len(),
    decreases levels.len() - i,
{
    assert(single_level(u).wf()) by {
        assert(single_level(u).entries[0] == u);
    }
    if i >= levels.len() {
        if levels.len() < cap {
            let next = levels.push(single_level(u));
            assert forall|k: int| 0 <= k < next.len() implies #[trigger] next[k].wf() by {
                if k < levels.len() {
                    assert(next[k] == levels[k]);
                }
            }
        }
    } else if ranks_before(r, u.price.value(), levels[i].price.value()) {
        let next = levels.insert(i, single_level(u));
        assert forall|k: int| 0 <= k < next.len() implies #[trigger] next[k].wf() by {
            if k < i {
                assert(next[k] == levels[k]);
            } else if k > i {
                assert(next[k] == levels[k - 1]);
            }
        }
    } else if u.price.value() == levels[i].price.value() {
        let lv = levels[i];
        assert(lv.wf());
        let nl = AggregateLevelView { price: lv.price, entries: with_entry(lv.entries, u) };
        lemma_with_entry_wf(lv, u);
        let next = levels.update(i, nl);
        assert forall|k: int| 0 <= k < next.len() implies #[trigger] next[k].wf() by {
            if k != i {
                assert(next[k] == levels[k]);
            }
        }
    } else {
        let lv = levels[i];
        assert(lv.wf());
        let nl = AggregateLevelView { price: lv.price, entries: without_code(lv.entries, u.exchange_code@) };
        lemma_without_code_wf(lv, u.exchange_code@);
        let next = levels.update(i, nl);
        assert forall|k: int| 0 <= k < next.len() implies #[trigger] next[k].wf() by {
            if k != i {
                assert(next[k] == levels[k]);
            }
        }
        lemma_step_keeps_wf(next, i + 1, u, r, cap);
    }
}

/// One side of the consolidated book: aggregate levels ordered by price
/// under the side's ranking, at most `max_levels` of them taken in when a
/// snapshot reaches past the last one.
#[derive(PartialEq, Debug)]
pub struct AggregateBookSide {
    /// The way prices follow one another.
    pub ordering: Ranking,
    /// Depth of the side.
    pub max_levels: usize,
    /// The levels.
    pub data: Vec<AggregateLevel>,
}

impl AggregateBookSide {
    /// The models of the levels.
    pub open spec fn levels(self) -> Seq<AggregateLevelView> {
        level_views(self.data@)
    }

    /// The side's invariant.
    pub open spec fn wf(self) -> bool {
        side_wf(self.levels(), self.ordering)
    }

    /// A side from levels already in order.
    pub fn new(ordering: Ranking, max_levels: usize, data: Vec<AggregateLevel>) -> (r: AggregateBookSide)
        requires
            side_wf(level_views(data@), ordering),
        ensures
            r.ordering == ordering,
            r.max_levels == max_levels,
            r.data@ == data@,
            r.wf(),
    {
        AggregateBookSide { ordering, max_levels, data }
    }

    /// Checks that the prices of the levels strictly follow the side's
    /// ranking, as every side built by `new` or changed by `update_side` does;
    /// a side that breaks its ranking is outside this function's contract.
    pub fn check_integrity(&self)
        requires
            levels_wf(self.levels()),
            strictly_ranked(self.levels(), self.ordering),
    {
        let ranked = self.is_strictly_ranked();
        assert(ranked);
    }

    /// Whether the prices of the levels strictly follow the side's ranking.
    pub fn is_strictly_ranked(&self) -> (r: bool)
        requires
            levels_wf(self.levels()),
        ensures
            r == strictly_ranked(self.levels(), self.ordering),
    {
        let ghost l = self.levels();
        let mut i: usize = 1;
        if self.data.len() == 0 {
            return true;
        }
        while i < self.data.len()
            invariant
                1 <= i <= l.len(),
                l == self.levels(),
                levels_wf(l),
                strictly_ranked(l.take(i as int), self.ordering),
            decreases l.len() - i,
        {
            assert(l[i - 1] == self.data@[i - 1]@);
            assert(l[i as int] == self.data@[i as int]@);
            assert(l[i - 1].wf());
            assert(l[i as int].wf());
            if !self.is_before(&self.data[i - 1].price, &self.data[i].price) {
                return false;
            }
            proof {
                let t = l.take(i as int + 1);
                let s0 = l.take(i as int);
                assert forall|a: int, b: int| 0 <= a < b < t.len() implies ranks_before(
                    self.ordering,
                    #[trigger] t[a].price.value(),
                    #[trigger] t[b].price.value(),
                ) by {
                    assert(t[a] == l[a]);
                    assert(t[b] == l[b]);
                    if b < i {
                        assert(s0[a] == l[a]);
                        assert(s0[b] == l[b]);
                    } else if a < i - 1 {
                        assert(s0[a] == l[a]);
                        assert(s0[i - 1] == l[i - 1]);
                        assert(ranks_before(self.ordering, s0[a].price.value(), s0[i - 1].price.value()));
                    }
                }
            }
            i = i + 1;
        }
        assert(l.take(i as int) =~= l);
        true
    }

    /// Number of levels.
    pub fn len(&self) -> (r: usize)
        ensures
            r == self.levels().len(),
    {
        self.data.len()
    }

    /// The level at position `i`.
    pub fn level(&self, i: usize) -> (r: &AggregateLevel)
        requires
            i < self.levels().len(),
        ensures
            r@ == self.levels()[i as int],
    {
        &self.data[i]
    }

    /// Whether price `a` comes strictly before price `b` on this side.
    pub fn is_before(&self, a: &Decimal, b: &Decimal) -> (r: bool)
        requires
            a.wf(),
            b.wf(),
        ensures
            r == ranks_before(self.ordering, a.value(), b.value()),
    {
        match self.ordering {
            Ranking::LessFirst => a.less_than(b),
            Ranking::GreaterFirst => b.less_than(a),
        }
    }

    /// The best `max_levels` exchange levels: level after level, and within
    /// a price the largest amount first.
    pub fn best_levels(&self) -> (r: Vec<ExchangeLevel>)
        requires
            levels_wf(self.levels()),
        ensures
            r@ == at_most(ranked_entries(self.levels()), self.max_levels as int),
    {
        let mut result: Vec<ExchangeLevel> = Vec::new();
        let mut levels_to_add: usize = self.max_levels;
        let mut i: usize = 0;
        while i < self.data.len()
            invariant
                0 <= i <= self.levels().len(),
                levels_wf(self.levels()),
                result@ == at_most(ranked_entries(self.levels().take(i as int)), self.max_levels as int),
                levels_to_add == self.max_levels - result@.len(),
                result@.len() <= self.max_levels,
            decreases self.levels().len() - i,
        {
            assert(self.levels()[i as int].wf());
            assert(self.levels()[i as int] == self.data@[i as int]@);
            let by_amount = self.data[i].levels_by_amount();
            let ghost before = result@;
            let mut k: usize = 0;
            while k < by_amount.len() && levels_to_add > 0
                invariant
                    0 <= k <= by_amount@.len(),
                    result@ == before + by_amount@.take(k as int),
                    levels_to_add == self.max_levels - result@.len(),
                    result@.len() <= self.max_levels,
                decreases by_amount@.len() - k,
            {
                result.push(by_amount[k]);
                levels_to_add = levels_to_add - 1;
                k = k + 1;
                assert(result@ =~= before + by_amount@.take(k as int));
            }
            proof {
                let t = self.levels().take(i as int + 1);
                assert(t.drop_last() =~= self.levels().take(i as int));
                assert(t.last() == self.levels()[i as int]);
                let a = ranked_entries(self.levels().take(i as int));
                let b = by_amount@;
                let n = self.max_levels as int;
                assert(ranked_entries(t) == a + b);
                if a.len() <= n {
                    if a.len() + b.len() <= n {
                        assert(by_amount@.take(k as int) =~= b);
                    } else {
                        assert(at_most(a + b, n) =~= a + b.take(k as int));
                    }
                } else {
                    assert(at_most(a + b, n) =~= a.take(n));
                }
            }
            i = i + 1;
        }
        assert(self.levels().take(i as int) =~= self.levels());
        result
    }

    /// Applies one side of an exchange snapshot. The snapshot replaces that
    /// exchange's prices from the best down to its last one: levels in between
    /// that it no longer lists lose its amount, and levels left with no
    /// exchange are removed.
    pub fn update_side(&mut self, side_update: Vec<ExchangeLevel>)
        requires
            old(self).wf(),
            snapshot_ranked(side_update@, old(self).ordering),
        ensures
            final(self).ordering == old(self).ordering,
            final(self).max_levels == old(self).max_levels,
            final(self).levels() == updated_levels(
                old(self).levels(),
                side_update@,
                old(self).ordering,
                old(self).max_levels as int,
            ),
            final(self).wf(),
    {
        proof {
            lemma_update_keeps_side_wf(
                self.levels(),
                side_update@,
                self.ordering,
                self.max_levels as int,
            );
        }
        let ghost us = side_update@;
        let ghost start = self.levels();
        let ghost r = self.ordering;
        let ghost cap = self.max_levels as int;
        let mut strategy = AggregateBookSideUpdateStrategy::new();
        let mut k: usize = 0;
        let mut stopped = false;
        assert(us.skip(0) =~= us);
        while k < side_update.len() && !stopped
            invariant
                self.ordering == r,
                self.max_levels == cap,
                us == side_update@,
                0 <= k <= us.len(),
                levels_wf(self.levels()),
                strategy.current_index <= self.levels().len(),
                strictly_ranked(self.levels(), r),
                snapshot_ranked(us, r),
                !stopped && k < us.len() ==> strategy.current_index == 0 || ranks_before(
                    r,
                    self.levels()[strategy.current_index - 1].price.value(),
                    us[k as int].price.value(),
                ),
                forall|m: int| 0 <= m < us.len() ==> #[trigger] us[m].wf(),
                stopped ==> walk(start, 0, us, r, cap) == self.levels(),
                stopped ==> k < us.len(),
                !stopped ==> walk(start, 0, us, r, cap) == walk(
                    self.levels(),
                    strategy.current_index as int,
                    us.skip(k as int),
                    r,
                    cap,
                ),
            decreases us.len() - k + (if stopped { 0int } else { 1int }),
        {
            let u = side_update[k];
            assert(us[k as int].wf());
            assert(us.skip(k as int)[0] == u);
            assert(us.skip(k as int).drop_first() =~= us.skip(k as int + 1));
            if strategy.apply(self, u) {
                k = k + 1;
                if k < side_update.len() {
                    assert(ranks_before(r, us[k - 1].price.value(), us[k as int].price.value()));
                }
            } else {
                stopped = true;
            }
        }
        if !stopped {
            assert(us.skip(k as int) =~= Seq::<ExchangeLevel>::empty());
        }
        self.remove_empty_levels();
    }

    /// Removes the levels that no exchange offers any more.
    fn remove_empty_levels(&mut self)
        ensures
            final(self).ordering == old(self).ordering,
            final(self).max_levels == old(self).max_levels,
            final(self).levels() == compact(old(self).levels()),
    {
        let ghost start = self.levels();
        let mut i: usize = 0;
        assert(start.skip(0) =~= start);
        assert(start.take(0) =~= Seq::<AggregateLevelView>::empty());
        while i < self.data.len()
            invariant
                self.ordering == old(self).ordering,
                self.max_levels == old(self).max_levels,
                0 <= i <= self.levels().len(),
                compact(start) == self.levels().take(i as int) + compact(self.levels().skip(i as int)),
                forall|k: int| 0 <= k < i ==> (#[trigger] self.levels()[k]).entries.len() > 0,
            decreases self.levels().len() - i,
        {
            let ghost l0 = self.levels();
            let ghost tail = l0.skip(i as int);
            assert(tail.drop_first() =~= l0.skip(i as int + 1));
            assert(tail[0] == self.data@[i as int]@);
            if self.data[i].exchange_levels.len() == 0 {
                self.data.remove(i);
                proof {
                    let l1 = self.levels();
                    assert(l1.take(i as int) =~= l0.take(i as int));
                    assert(l1.skip(i as int) =~= l0.skip(i as int + 1));
                    assert forall|k: int| 0 <= k < i implies (#[trigger] l1[k]).entries.len() > 0 by {
                        assert(l1[k] == l0[k]);
                    }
                }
            } else {
                i = i + 1;
                proof {
                    let l1 = self.levels();
                    assert(l1.take(i as int) =~= l0.take(i as int - 1).push(tail[0]));
                    assert(l0.take(i as int - 1) + (seq![tail[0]] + compact(tail.drop_first()))
                        =~= l0.take(i as int - 1).push(tail[0]) + compact(tail.drop_first()));
                }
            }
        }
        assert(self.levels().take(i as int) =~= self.levels());
        assert(self.levels().skip(i as int) =~= Seq::<AggregateLevelView>::empty());
        assert(self.levels().take(i as int) + compact(Seq::<AggregateLevelView>::empty()) =~= self.levels());
    }
}

/// The state of one pass of a snapshot side over a book side: the cursor, an
/// index into the side's levels.
pub struct AggregateBookSideUpdateStrategy {
    /// Position of the first level not yet passed.
    pub current_index: usize,
}

impl AggregateBookSideUpdateStrategy {
    /// A pass that starts before the first level.
    pub fn new() -> (r: AggregateBookSideUpdateStrategy)
        ensures
            r.current_index == 0,
    {
        AggregateBookSideUpdateStrategy { current_index: 0 }
    }

    /// Applies the snapshot level `level_update` at the cursor; `false` when
    /// it lies beyond the depth of the side, and with it the rest of the snapshot.
    pub fn apply(&mut self, side: &mut AggregateBookSide, level_update: ExchangeLevel) -> (r: bool)
        requires
            old(self).current_index <= old(side).levels().len(),
            levels_wf(old(side).levels()),
            strictly_ranked(old(side).levels(), old(side).ordering),
            old(self).current_index == 0 || ranks_before(
                old(side).ordering,
                old(side).levels()[old(self).current_index - 1].price.value(),
                level_update.price.value(),
            ),
            level_update.wf(),
        ensures
            final(side).ordering == old(side).ordering,
            final(side).max_levels == old(side).max_levels,
            levels_wf(final(side).levels()),
            strictly_ranked(final(side).levels(), final(side).ordering),
            final(self).current_index <= final(side).levels().len(),
            r ==> final(self).current_index >= 1 && final(side).levels()[final(self).current_index - 1].price.value()
                == level_update.price.value(),
            ({
                let (next, j, go_on) = step(
                    old(side).levels(),
                    old(self).current_index as int,
                    level_update,
                    old(side).ordering,
                    old(side).max_levels as int,
                );
                &&& r == go_on
                &&& final(side).levels() == next
                &&& r ==> final(self).current_index == j
            }),
    {
        let ghost goal = step(
            side.levels(),
            self.current_index as int,
            level_update,
            side.ordering,
            side.max_levels as int,
        );
        let u = level_update;
        proof {
            lemma_step_keeps_order(
                side.levels(),
                self.current_index as int,
                u,
                side.ordering,
                side.max_levels as int,
            );
        }
        assert(goal == step(
            old(side).levels(),
            old(self).current_index as int,
            level_update,
            old(side).ordering,
            old(side).max_levels as int,
        ));
        loop
            invariant
                goal == step(
                    old(side).levels(),
                    old(self).current_index as int,
                    u,
                    old(side).ordering,
                    old(side).max_levels as int,
                ),
                u == level_update,
                self.current_index <= side.levels().len(),
                levels_wf(side.levels()),
                u.wf(),
                side.ordering == old(side).ordering,
                side.max_levels == old(side).max_levels,
                goal == step(side.levels(), self.current_index as int, u, side.ordering, side.max_levels as int),
                strictly_ranked(goal.0, old(side).ordering),
                goal.2 ==> 1 <= goal.1 <= goal.0.len() && goal.0[goal.1 - 1].price.value() == u.price.value(),
            decreases side.levels().len() - self.current_index,
        {
            let i = self.current_index;
            let ghost l0 = side.levels();
            assert(l0.len() == side.data@.len());
            proof {
                lemma_step_keeps_wf(l0, i as int, u, side.ordering, side.max_levels as int);
            }
            if i == side.data.len() {
                if side.data.len() >= side.max_levels {
                    return false;
                }
                side.data.push(AggregateLevel::from_level(u));
                self.current_index = i + 1;
                assert(side.levels() =~= l0.push(single_level(u)));
                return true;
            }
            assert(l0[i as int] == side.data@[i as int]@);
            assert(l0[i as int].wf());
            let p = side.data[i].price;
            if side.is_before(&u.price, &p) {
                side.data.insert(i, AggregateLevel::from_level(u));
                self.current_index = i + 1;
                assert(side.levels() =~= l0.insert(i as int, single_level(u)));
                return true;
            } else if u.price.same_value(&p) {
                side.data[i].update(u);
                self.current_index = i + 1;
                assert(side.levels() =~= l0.update(
                    i as int,
                    AggregateLevelView { price: l0[i as int].price, entries: with_entry(l0[i as int].entries, u) },
                ));
                return true;
            } else {
                side.data[i].remove(u.exchange_code);
                self.current_index = i + 1;
                assert(side.levels() =~= l0.update(
                    i as int,
                    AggregateLevelView {
                        price: l0[i as int].price,
                        entries: without_code(l0[i as int].entries, u.exchange_code@),
                    },
                ));
                proof {
                    lemma_without_code_wf(l0[i as int], u.exchange_code@);
                    let l1 = side.levels();
                    assert forall|k: int| 0 <= k < l1.len() implies #[trigger] l1[k].wf() by {
                        if k != i {
                            assert(l1[k] == l0[k]);
                        }
                    }
                }
            }
        }
    }
}

pub(crate) proof fn lemma_step_keeps_order(
    levels: Seq<AggregateLevelView>,
    i: int,
    u: ExchangeLevel,
    r: Ranking,
    cap: int,
)
    requires
        strictly_ranked(levels, r),
        0 <= i <= levels.len(),
        i == 0 || ranks_before(r, levels[i - 1].price.value(), u.price.value()),
    ensures
        strictly_ranked(step(levels, i, u, r, cap).0, r),
        step(levels, i, u, r, cap).0.len() >= levels.len(),
        step(levels, i, u, r, cap).2 ==> {
            let (next, j, _) = step(levels, i, u, r, cap);
            &&& 1 <= j <= next.len()
            &&& next[j - 1].price.value() == u.price.value()
        },
    decreases levels.len() - i,
{
    if i >= levels.len() {
        if levels.len() < cap {
            let next = levels.push(single_level(u));
            assert forall|a: int, b: int| 0 <= a < b < next.len() implies ranks_before(
                r,
                #[trigger] next[a].price.value(),
                #[trigger] next[b].price.value(),
            ) by {
                if b == levels.len() {
                    if a < i - 1 {
                        assert(ranks_before(r, levels[a].price.value(), levels[i - 1].price.value()));
                    }
                } else {
                    assert(next[a] == levels[a]);
                    assert(next[b] == levels[b]);
                }
            }
        }
    } else if ranks_before(r, u.price.value(), levels[i].price.value()) {
        let next = levels.insert(i, single_level(u));
        assert forall|a: int, b: int| 0 <= a < b < next.len() implies ranks_before(
            r,
            #[trigger] next[a].price.value(),
            #[trigger] next[b].price.value(),
        ) by {
            if a < i {
                assert(next[a] == levels[a]);
                if a < i - 1 {
                    assert(ranks_before(r, levels[a].price.value(), levels[i - 1].price.value()));
                }
            } else if a > i {
                assert(next[a] == levels[a - 1]);
            }
            if b < i {
                assert(next[b] == levels[b]);
            } else if b > i {
                assert(next[b] == levels[b - 1]);
                if b - 1 > i {
                    assert(ranks_before(r, levels[i].price.value(), levels[b - 1].price.value()));
                }
            }
        }
    } else if u.price.value() == levels[i].price.value() {
        let next = step(levels, i, u, r, cap).0;
        assert forall|a: int, b: int| 0 <= a < b < next.len() implies ranks_before(
            r,
            #[trigger] next[a].price.value(),
            #[trigger] next[b].price.value(),
        ) by {
            assert(next[a].price == levels[a].price);
            assert(next[b].price == levels[b].price);
        }
    } else {
        let next = levels.update(
            i,
            AggregateLevelView {
                price: levels[i].price,
                entries: without_code(levels[i].entries, u.exchange_code@),
            },
        );
        assert forall|a: int, b: int| 0 <= a < b < next.len() implies ranks_before(
            r,
            #[trigger] next[a].price.value(),
            #[trigger] next[b].price.value(),
        ) by {
            assert(next[a].price == levels[a].price);
            assert(next[b].price == levels[b].price);
        }
        assert(next[i].price == levels[i].price);
        lemma_step_keeps_order(next, i + 1, u, r, cap);
    }
}

pub(crate) proof fn lemma_walk_keeps_order(
    levels: Seq<AggregateLevelView>,
    i: int,
    us: Seq<ExchangeLevel>,
    r: Ranking,
    cap: int,
)
    requires
        strictly_ranked(levels, r),
        levels_wf(levels),
        snapshot_ranked(us, r),
        0 <= i <= levels.len(),
        i == 0 || us.len() == 0 || ranks_before(r, levels[i - 1].price.value(), us[0].price.value()),
    ensures
        strictly_ranked(walk(levels, i, us, r, cap), r),
        levels_wf(walk(levels, i, us, r, cap)),
    decreases us.len(),
{
    if us.len() > 0 {
        assert(us[0].wf());
        lemma_step_keeps_order(levels, i, us[0], r, cap);
        lemma_step_keeps_wf(levels, i, us[0], r, cap);
        let (next, j, go_on) = step(levels, i, us[0], r, cap);
        if go_on {
            let rest = us.drop_first();
            assert forall|k: int| 0 <= k < rest.len() implies #[trigger] rest[k].wf() by {
                assert(rest[k] == us[k + 1]);
            }
            assert forall|a: int, b: int| 0 <= a < b < rest.len() implies ranks_before(
                r,
                #[trigger] rest[a].price.value(),
                #[trigger] rest[b].price.value(),
            ) by {
                assert(rest[a] == us[a + 1]);
                assert(rest[b] == us[b + 1]);
            }
            if rest.len() > 0 {
                assert(rest[0] == us[1]);
                assert(ranks_before(r, us[0].price.value(), us[1].price.value()));
            }
            lemma_walk_keeps_order(next, j, rest, r, cap);
        }
    }
}

/// Every level that `compact` keeps comes from `levels` and holds an exchange.
pub(crate) proof fn lemma_compact_members(levels: Seq<AggregateLevelView>)
    ensures
        forall|k: int|
            0 <= k < compact(levels).len() ==> {
                &&& levels.contains(#[trigger] compact(levels)[k])
                &&& compact(levels)[k].entries.len() > 0
            },
    decreases levels.len(),
{
    if levels.len() > 0 {
        let rest = levels.drop_first();
        lemma_compact_members(rest);
        let c = compact(levels);
        assert forall|k: int| 0 <= k < c.len() implies {
            &&& levels.contains(#[trigger] c[k])
            &&& c[k].entries.len() > 0
        } by {
            if levels[0].entries.len() > 0 {
                if k == 0 {
                    assert(levels[0] == c[0]);
                } else {
                    assert(c[k] == compact(rest)[k - 1]);
                    assert(rest.contains(c[k]));
                    let m = choose|m: int| 0 <= m < rest.len() && rest[m] == c[k];
                    assert(levels[m + 1] == c[k]);
                }
            } else {
                assert(rest.contains(c[k]));
                let m = choose|m: int| 0 <= m < rest.len() && rest[m] == c[k];
                assert(levels[m + 1] == c[k]);
            }
        }
    }
}

pub(crate) proof fn lemma_compact_keeps_order(levels: Seq<AggregateLevelView>, r: Ranking)
    requires
        strictly_ranked(levels, r),
        levels_wf(levels),
    ensures
        side_wf(compact(levels), r),
    decreases levels.len(),
{
    lemma_compact_members(levels);
    let c = compact(levels);
    assert forall|k: int| 0 <= k < c.len() implies #[trigger] c[k].wf() by {
        assert(levels.contains(c[k]));
    }
    if levels.len() > 0 {
        let rest = levels.drop_first();
        assert forall|a: int, b: int| 0 <= a < b < rest.len() implies ranks_before(
            r,
            #[trigger] rest[a].price.value(),
            #[trigger] rest[b].price.value(),
        ) by {
            assert(rest[a] == levels[a + 1]);
            assert(rest[b] == levels[b + 1]);
        }
        lemma_compact_keeps_order(rest, r);
        lemma_compact_members(rest);
        if levels[0].entries.len() > 0 {
            assert forall|a: int, b: int| 0 <= a < b < c.len() implies ranks_before(
                r,
                #[trigger] c[a].price.value(),
                #[trigger] c[b].price.value(),
            ) by {
                assert(c[b] == compact(rest)[b - 1]);
                if a == 0 {
                    assert(rest.contains(c[b]));
                    let m = choose|m: int| 0 <= m < rest.len() && rest[m] == c[b];
                    assert(levels[m + 1] == c[b]);
                } else {
                    assert(c[a] == compact(rest)[a - 1]);
                }
            }
        }
    }
}

/// A side stays strictly ranked, with well-formed levels and none empty,
/// after any snapshot side whose prices follow the side's ranking.
pub proof fn lemma_update_keeps_side_wf(
    levels: Seq<AggregateLevelView>,
    us: Seq<ExchangeLevel>,
    r: Ranking,
    cap: int,
)
    requires
        side_wf(levels, r),
        snapshot_ranked(us, r),
    ensures
        side_wf(updated_levels(levels, us, r, cap), r),
{
    lemma_walk_keeps_order(levels, 0, us, r, cap);
    lemma_compact_keeps_order(walk(levels, 0, us, r, cap), r);
}

/// Whether the levels of a snapshot side are well formed and their prices
/// strictly follow the ranking `ordering`.
pub fn is_ranked(ordering: Ranking, levels: &Vec<ExchangeLevel>) -> (r: bool)
    ensures
        r == snapshot_ranked(levels@, ordering),
{
    let mut i: usize = 0;
    while i < levels.len()
        invariant
            0 <= i <= levels@.len(),
            snapshot_ranked(levels@.take(i as int), ordering),
        decreases levels@.len() - i,
    {
        let l = levels[i];
        let ghost t = levels@.take(i as int + 1);
        if !l.price.is_wf() || !l.amount.is_wf() {
            assert(!t[i as int].wf());
            assert(!levels@[i as int].wf());
            return false;
        }
        if i > 0 {
            let prev = levels[i - 1];
            assert(levels@.take(i as int)[i - 1] == prev);
            assert(levels@.take(i as int)[i - 1].wf());
            let ok = match ordering {
                Ranking::LessFirst => prev.price.less_than(&l.price),
                Ranking::GreaterFirst => l.price.less_than(&prev.price),
            };
            if !ok {
                assert(!ranks_before(ordering, levels@[i - 1].price.value(), levels@[i as int].price.value()));
                return false;
            }
        }
        proof {
            let s0 = levels@.take(i as int);
            assert forall|k: int| 0 <= k < t.len() implies #[trigger] t[k].wf() by {
                if k < i {
                    assert(t[k] == s0[k]);
                }
            }
            assert forall|a: int, b: int| 0 <= a < b < t.len() implies ranks_before(
                ordering,
                #[trigger] t[a].price.value(),
                #[trigger] t[b].price.value(),
            ) by {
                assert(t[a] == levels@[a]);
                assert(t[b] == levels@[b]);
                if b < i {
                    assert(t[a] == s0[a]);
                    assert(t[b] == s0[b]);
                } else if a < i - 1 {
                    assert(s0[a] == levels@[a]);
                    assert(s0[i - 1] == levels@[i - 1]);
                    assert(ranks_before(ordering, s0[a].price.value(), s0[i - 1].price.value()));
                }
            }
        }
        i = i + 1;
    }
    assert(levels@.take(i as int) =~= levels@);
    true
}

} // verus!
