//! Aggregate price levels: the exchange levels that several exchanges
//! offer at one price, and their order by amount.

use vstd::prelude::*;
use crate::book::{ExchangeLevel, same_code};
use crate::decimal::{Decimal, decimal_sum};

verus! {

/// What an aggregate level holds: its price and the exchange levels there.
pub struct AggregateLevelView {
    pub price: Decimal,
    pub entries: Seq<ExchangeLevel>,
}

/// Whether one of the entries comes from the exchange `code`.
pub open spec fn has_code(entries: Seq<ExchangeLevel>, code: Seq<char>) -> bool {
    exists|k: int| 0 <= k < entries.len() && entries[k].exchange_code@ == code
}

/// The position of the entry from the exchange `code`.
pub open spec fn code_index(entries: Seq<ExchangeLevel>, code: Seq<char>) -> int {
    choose|k: int| 0 <= k < entries.len() && entries[k].exchange_code@ == code
}

/// The entries with `l` in place of the entry of its exchange, or added last.
pub open spec fn with_entry(entries: Seq<ExchangeLevel>, l: ExchangeLevel) -> Seq<ExchangeLevel> {
    if has_code(entries, l.exchange_code@) {
        entries.update(code_index(entries, l.exchange_code@), l)
    } else {
        entries.push(l)
    }
}

/// The entries without the one from the exchange `code`.
pub open spec fn without_code(entries: Seq<ExchangeLevel>, code: Seq<char>) -> Seq<ExchangeLevel> {
    if has_code(entries, code) {
        entries.remove(code_index(entries, code))
    } else {
        entries
    }
}

/// No two entries come from the same exchange.
pub open spec fn codes_unique(entries: Seq<ExchangeLevel>) -> bool {
    forall|i: int, j: int|
        0 <= i < j < entries.len() ==> entries[i].exchange_code@ != entries[j].exchange_code@
}

impl AggregateLevelView {
    /// Entries with distinct exchanges, all at the level's price.
    pub open spec fn wf(self) -> bool {
        &&& self.price.wf()
        &&& codes_unique(self.entries)
        &&& forall|k: int|
            0 <= k < self.entries.len() ==> {
                &&& #[trigger] self.entries[k].wf()
                &&& self.entries[k].price.value() == self.price.value()
            }
    }
}

/// The entries of a level built from `levels` in order, each replacing the
/// entry of its exchange or added last.
pub open spec fn merged_entries(levels: Seq<ExchangeLevel>) -> Seq<ExchangeLevel>
    decreases levels.len(),
{
    if levels.len() <= 1 {
        levels
    } else {
        with_entry(merged_entries(levels.drop_last()), levels.last())
    }
}

/// A new aggregate level holding the single exchange level `u`.
pub open spec fn single_level(u: ExchangeLevel) -> AggregateLevelView {
    AggregateLevelView { price: u.price, entries: seq![u] }
}

/// `x` placed in `s` before the first entry with a smaller amount.
pub open spec fn insert_by_amount(s: Seq<ExchangeLevel>, x: ExchangeLevel) -> Seq<ExchangeLevel>
    decreases s.len(),
{
    if s.len() == 0 {
        seq![x]
    } else if s[0].amount.value() < x.amount.value() {
        seq![x] + s
    } else {
        seq![s[0]] + insert_by_amount(s.drop_first(), x)
    }
}

/// The entries ordered by amount, largest first; equal amounts keep their order.
pub open spec fn sort_by_amount(s: Seq<ExchangeLevel>) -> Seq<ExchangeLevel>
    decreases s.len(),
{
    if s.len() == 0 {
        seq![]
    } else {
        insert_by_amount(sort_by_amount(s.drop_last()), s.last())
    }
}

/// Amounts never increase along `s`.
pub open spec fn amounts_non_increasing(s: Seq<ExchangeLevel>) -> bool {
    forall|i: int, j: int|
        0 <= i < j < s.len() ==> s[j].amount.value() <= s[i].amount.value()
}

/// Where `x` goes: before the entry at `j`, the first one with a smaller amount.
pub(crate) proof fn lemma_insert_by_amount_at(s: Seq<ExchangeLevel>, x: ExchangeLevel, j: int)
    requires
        0 <= j <= s.len(),
        forall|k: int| 0 <= k < j ==> !(s[k].amount.value() < x.amount.value()),
        j == s.len() || s[j].amount.value() < x.amount.value(),
    ensures
        insert_by_amount(s, x) == s.insert(j, x),
    decreases s.len(),
{
    if s.len() == 0 {
        assert(s.insert(j, x) =~= seq![x]);
    } else if j == 0 {
        assert(s.insert(j, x) =~= seq![x] + s);
    } else {
        let t = s.drop_first();
        lemma_insert_by_amount_at(t, x, j - 1);
        assert(s.insert(j, x) =~= seq![s[0]] + t.insert(j - 1, x));
    }
}

pub(crate) proof fn lemma_insert_by_amount_sorted(s: Seq<ExchangeLevel>, x: ExchangeLevel)
    requires
        amounts_non_increasing(s),
    ensures
        amounts_non_increasing(insert_by_amount(s, x)),
        insert_by_amount(s, x).len() == s.len() + 1,
        insert_by_amount(s, x).to_multiset() == s.to_multiset().insert(x),
    decreases s.len(),
{
    broadcast use vstd::seq_lib::group_to_multiset_ensures;
    if s.len() == 0 {
        assert(seq![x] =~= Seq::<ExchangeLevel>::empty().push(x));
    } else if s[0].amount.value() < x.amount.value() {
        vstd::seq_lib::lemma_multiset_commutative(seq![x], s);
        assert(seq![x] =~= Seq::<ExchangeLevel>::empty().push(x));
    } else {
        let t = s.drop_first();
        assert(amounts_non_increasing(t));
        lemma_insert_by_amount_sorted(t, x);
        let r = insert_by_amount(t, x);
        assert(s =~= seq![s[0]] + t);
        vstd::seq_lib::lemma_multiset_commutative(seq![s[0]], t);
        vstd::seq_lib::lemma_multiset_commutative(seq![s[0]], r);
        assert(seq![s[0]] =~= Seq::<ExchangeLevel>::empty().push(s[0]));
        let out = seq![s[0]] + r;
        assert forall|i: int, j: int| 0 <= i < j < out.len() implies out[j].amount.value()
            <= out[i].amount.value() by {
            if i > 0 {
                assert(out[i] == r[i - 1]);
                assert(out[j] == r[j - 1]);
            } else {
                assert(out[j] == r[j - 1]);
                assert(r.to_multiset().count(r[j - 1]) > 0);
                assert(t.to_multiset().insert(x).count(r[j - 1]) > 0);
                if r[j - 1] != x {
                    assert(t.to_multiset().count(r[j - 1]) > 0);
                    let k = choose|k: int| 0 <= k < t.len() && t[k] == r[j - 1];
                    assert(s[k + 1] == t[k]);
                }
            }
        }
    }
}

/// Ordering by amount yields the same entries, largest amount first.
pub proof fn lemma_sort_by_amount(s: Seq<ExchangeLevel>)
    ensures
        amounts_non_increasing(sort_by_amount(s)),
        sort_by_amount(s).len() == s.len(),
        sort_by_amount(s).to_multiset() == s.to_multiset(),
    decreases s.len(),
{
    broadcast use vstd::seq_lib::group_to_multiset_ensures;
    if s.len() > 0 {
        lemma_sort_by_amount(s.drop_last());
        lemma_insert_by_amount_sorted(sort_by_amount(s.drop_last()), s.last());
        assert(s =~= s.drop_last().push(s.last()));
    }
}

/// The total of the amounts of `entries`, added in order from zero as the
/// decimal type adds them; `None` where a sum overflows.
pub open spec fn sum_amounts(entries: Seq<ExchangeLevel>) -> Option<(i128, u32)>
    decreases entries.len(),
{
    if entries.len() == 0 {
        Some((0i128, 0u32))
    } else {
        match sum_amounts(entries.drop_last()) {
            Some(acc) => decimal_sum(acc, (entries.last().amount.mantissa, entries.last().amount.scale)),
            None => None,
        }
    }
}

/// A price level of one side of the consolidated book, with one exchange
/// level for each exchange that offers that price.
#[derive(PartialEq, Debug)]
pub struct AggregateLevel {
    /// The price.
    pub price: Decimal,
    /// The exchange levels at that price, at most one per exchange.
    pub exchange_levels: Vec<ExchangeLevel>,
}

impl View for AggregateLevel {
    type V = AggregateLevelView;

    open spec fn view(&self) -> AggregateLevelView {
        AggregateLevelView { price: self.price, entries: self.exchange_levels@ }
    }
}

impl AggregateLevel {
    /// A level holding the single exchange level `level`.
    pub fn from_level(level: ExchangeLevel) -> (r: AggregateLevel)
        ensures
            r@ == single_level(level),
    {
        let mut exchange_levels = Vec::new();
        exchange_levels.push(level);
        assert(exchange_levels@ =~= seq![level]);
        AggregateLevel { price: level.price, exchange_levels }
    }

    /// A level holding the given exchange levels, all at one price; a later
    /// level replaces an earlier one from the same exchange.
    pub fn from_levels(levels: Vec<ExchangeLevel>) -> (r: AggregateLevel)
        requires
            levels@.len() > 0,
            forall|k: int|
                0 <= k < levels@.len() ==> {
                    &&& #[trigger] levels@[k].wf()
                    &&& levels@[k].price.value() == levels@[0].price.value()
                },
        ensures
            r@.wf(),
            r@.price == levels@[0].price,
            r@.entries == merged_entries(levels@),
    {
        let mut level = AggregateLevel::from_level(levels[0]);
        let mut i: usize = 1;
        proof {
            assert(levels@[0].wf());
            assert(level@.entries[0] == levels@[0]);
            assert(levels@.take(1) =~= seq![levels@[0]]);
        }
        while i < levels.len()
            invariant
                1 <= i <= levels@.len(),
                level@.wf(),
                level@.price == levels@[0].price,
                level@.entries == merged_entries(levels@.take(i as int)),
                forall|k: int|
                    0 <= k < levels@.len() ==> {
                        &&& #[trigger] levels@[k].wf()
                        &&& levels@[k].price.value() == levels@[0].price.value()
                    },
            decreases levels@.len() - i,
        {
            proof {
                assert(levels@[i as int].wf());
                let t = levels@.take(i as int + 1);
                assert(t.drop_last() =~= levels@.take(i as int));
                assert(t.last() == levels@[i as int]);
            }
            level.update(levels[i]);
            i = i + 1;
        }
        assert(levels@.take(i as int) =~= levels@);
        level
    }

    /// The total amount offered at this price over all exchanges; `None`
    /// where the sum does not fit a decimal.
    pub fn total_amount(&self) -> (r: Option<Decimal>)
        requires
            self@.wf(),
        ensures
            r is Some <==> sum_amounts(self@.entries) is Some,
            r matches Some(d) ==> d == Decimal::from_parts(sum_amounts(self@.entries)->Some_0),
    {
        let mut acc = Decimal::zero();
        let mut i: usize = 0;
        while i < self.exchange_levels.len()
            invariant
                0 <= i <= self@.entries.len(),
                self@.wf(),
                acc.wf(),
                sum_amounts(self@.entries.take(i as int)) == Some((acc.mantissa, acc.scale)),
            decreases self@.entries.len() - i,
        {
            let ghost t = self@.entries.take(i as int + 1);
            assert(t.drop_last() =~= self@.entries.take(i as int));
            assert(self@.entries[i as int].wf());
            match acc.checked_add(&self.exchange_levels[i].amount) {
                Some(d) => {
                    acc = d;
                },
                None => {
                    proof {
                        lemma_sum_amounts_none(self@.entries, i as int + 1);
                    }
                    return None;
                },
            }
            i = i + 1;
        }
        assert(self@.entries.take(i as int) =~= self@.entries);
        Some(acc)
    }

    /// The position of the entry from the exchange `code`, if there is one.
    fn find(&self, code: &str) -> (r: Option<usize>)
        requires
            codes_unique(self@.entries),
        ensures
            r is Some <==> has_code(self@.entries, code@),
            r matches Some(k) ==> k == code_index(self@.entries, code@),
    {
        let mut k: usize = 0;
        while k < self.exchange_levels.len()
            invariant
                0 <= k <= self@.entries.len(),
                codes_unique(self@.entries),
                forall|j: int| 0 <= j < k ==> self@.entries[j].exchange_code@ != code@,
            decreases self@.entries.len() - k,
        {
            if same_code(self.exchange_levels[k].exchange_code, code) {
                let ghost c = code_index(self@.entries, code@);
                assert(self@.entries[k as int].exchange_code@ == code@);
                assert(self@.entries[c].exchange_code@ == code@);
                proof {
                    if c < k as int {
                        assert(self@.entries[c].exchange_code@ != self@.entries[k as int].exchange_code@);
                    } else if c > k as int {
                        assert(self@.entries[k as int].exchange_code@ != self@.entries[c].exchange_code@);
                    }
                }
                return Some(k);
            }
            k = k + 1;
        }
        None
    }

    /// Sets the contribution of the level's exchange at this price.
    pub fn update(&mut self, level: ExchangeLevel)
        requires
            old(self)@.wf(),
            level.wf(),
            level.price.value() == old(self)@.price.value(),
        ensures
            final(self)@ == (AggregateLevelView {
                price: old(self)@.price,
                entries: with_entry(old(self)@.entries, level),
            }),
            final(self)@.wf(),
    {
        let ghost before = self@;
        match self.find(level.exchange_code) {
            Some(k) => {
                self.exchange_levels.set(k, level);
            },
            None => {
                self.exchange_levels.push(level);
            },
        }
        proof {
            lemma_with_entry_wf(before, level);
        }
    }

    /// Withdraws the contribution of the exchange `code` at this price.
    pub fn remove(&mut self, code: &str)
        requires
            old(self)@.wf(),
        ensures
            final(self)@ == (AggregateLevelView {
                price: old(self)@.price,
                entries: without_code(old(self)@.entries, code@),
            }),
            final(self)@.wf(),
    {
        let ghost before = self@;
        match self.find(code) {
            Some(k) => {
                self.exchange_levels.remove(k);
            },
            None => {},
        }
        proof {
            lemma_without_code_wf(before, code@);
        }
    }

    /// The exchange levels at this price, largest amount first.
    pub fn levels_by_amount(&self) -> (r: Vec<ExchangeLevel>)
        requires
            self@.wf(),
        ensures
            r@ == sort_by_amount(self@.entries),
    {
        let mut r: Vec<ExchangeLevel> = Vec::new();
        let mut i: usize = 0;
        while i < self.exchange_levels.len()
            invariant
                0 <= i <= self@.entries.len(),
                self@.wf(),
                r@ == sort_by_amount(self@.entries.take(i as int)),
                forall|k: int| 0 <= k < r@.len() ==> #[trigger] r@[k].wf(),
            decreases self@.entries.len() - i,
        {
            let x = self.exchange_levels[i];
            assert(self@.entries[i as int].wf());
            proof {
                lemma_sort_by_amount(self@.entries.take(i as int));
                assert forall|k: int| 0 <= k < r@.len() implies #[trigger] r@[k].wf() by {
                }
            }
            let mut j: usize = 0;
            let mut found = false;
            while !found && j < r.len()
                invariant
                    0 <= j <= r@.len(),
                    x.wf(),
                    forall|k: int| 0 <= k < r@.len() ==> #[trigger] r@[k].wf(),
                    forall|k: int| 0 <= k < j ==> !(r@[k].amount.value() < x.amount.value()),
                    found ==> j < r@.len() && r@[j as int].amount.value() < x.amount.value(),
                decreases r@.len() - j + (if found { 0int } else { 1int }),
            {
                assert(r@[j as int].wf());
                if r[j].amount.less_than(&x.amount) {
                    found = true;
                } else {
                    j = j + 1;
                }
            }
            proof {
                lemma_insert_by_amount_at(r@, x, j as int);
                let t = self@.entries.take(i as int + 1);
                assert(t.drop_last() =~= self@.entries.take(i as int));
                assert(t.last() == x);
            }
            r.insert(j, x);
            i = i + 1;
            proof {
                assert forall|k: int| 0 <= k < r@.len() implies #[trigger] r@[k].wf() by {
                    if k < j {
                    } else if k > j {
                        assert(r@[k] == r@.remove(j as int)[k - 1]);
                    }
                }
            }
        }
        assert(self@.entries.take(i as int) =~= self@.entries);
        r
    }
}

/// Once a partial sum overflows, the whole sum does.
pub(crate) proof fn lemma_sum_amounts_none(entries: Seq<ExchangeLevel>, n: int)
    requires
        0 <= n <= entries.len(),
        sum_amounts(entries.take(n)) is None,
    ensures
        sum_amounts(entries) is None,
    decreases entries.len() - n,
{
    if n < entries.len() {
        let t = entries.take(n + 1);
        assert(t.drop_last() =~= entries.take(n));
        lemma_sum_amounts_none(entries, n + 1);
    } else {
        assert(entries.take(n) =~= entries);
    }
}

pub(crate) proof fn lemma_with_entry_has(entries: Seq<ExchangeLevel>, l: ExchangeLevel)
    ensures
        has_code(with_entry(entries, l), l.exchange_code@),
{
    let e = with_entry(entries, l);
    if has_code(entries, l.exchange_code@) {
        let k = code_index(entries, l.exchange_code@);
        assert(e[k] == l);
    } else {
        assert(e[entries.len() as int] == l);
    }
}

pub(crate) proof fn lemma_with_entry_wf(lv: AggregateLevelView, u: ExchangeLevel)
    requires
        lv.wf(),
        u.wf(),
        u.price.value() == lv.price.value(),
    ensures
        (AggregateLevelView { price: lv.price, entries: with_entry(lv.entries, u) }).wf(),
{
    let before = lv.entries;
    let after = with_entry(before, u);
    assert forall|i: int, j: int| 0 <= i < j < after.len() implies after[i].exchange_code@
        != after[j].exchange_code@ by {
        if !has_code(before, u.exchange_code@) {
            if j == before.len() {
                assert(before[i].exchange_code@ != u.exchange_code@);
            }
        }
    }
    assert forall|k: int| 0 <= k < after.len() implies {
        &&& #[trigger] after[k].wf()
        &&& after[k].price.value() == lv.price.value()
    } by {
        if after[k] != u {
            assert(after[k] == before[k]);
            assert(before[k].wf());
        }
    }
}

pub(crate) proof fn lemma_without_code_wf(lv: AggregateLevelView, code: Seq<char>)
    requires
        lv.wf(),
    ensures
        (AggregateLevelView { price: lv.price, entries: without_code(lv.entries, code) }).wf(),
{
    let before = lv.entries;
    let after = without_code(before, code);
    if has_code(before, code) {
        let k = code_index(before, code);
        assert forall|i: int, j: int| 0 <= i < j < after.len() implies after[i].exchange_code@
            != after[j].exchange_code@ by {
            let i0 = if i < k { i } else { i + 1 };
            let j0 = if j < k { j } else { j + 1 };
            assert(after[i] == before[i0]);
            assert(after[j] == before[j0]);
        }
        assert forall|m: int| 0 <= m < after.len() implies {
            &&& #[trigger] after[m].wf()
            &&& after[m].price.value() == lv.price.value()
        } by {
            let m0 = if m < k { m } else { m + 1 };
            assert(after[m] == before[m0]);
            assert(before[m0].wf());
        }
    }
}

/// Every entry that `sort_by_amount` yields is one of the entries it was given.
pub(crate) proof fn lemma_sorted_members(entries: Seq<ExchangeLevel>)
    ensures
        forall|k: int| 0 <= k < sort_by_amount(entries).len() ==> entries.contains(#[trigger] sort_by_amount(entries)[k]),
{
    broadcast use vstd::seq_lib::group_to_multiset_ensures;
    lemma_sort_by_amount(entries);
    let s = sort_by_amount(entries);
    assert forall|k: int| 0 <= k < s.len() implies entries.contains(#[trigger] s[k]) by {
        assert(s.to_multiset().count(s[k]) > 0);
    }
}

/// Merging an exchange level at a price leaves the entries of the other
/// exchanges at that price as they were.
pub proof fn lemma_merge_keeps_other_exchanges(lv: AggregateLevelView, u: ExchangeLevel, code: Seq<char>)
    requires
        lv.wf(),
        u.wf(),
        u.price.value() == lv.price.value(),
        code != u.exchange_code@,
    ensures
        has_code(with_entry(lv.entries, u), code) == has_code(lv.entries, code),
        has_code(lv.entries, code) ==> with_entry(lv.entries, u)[code_index(with_entry(lv.entries, u), code)]
            == lv.entries[code_index(lv.entries, code)],
{
    let e = lv.entries;
    let w = with_entry(e, u);
    lemma_with_entry_wf(lv, u);
    if has_code(e, code) {
        let kc = code_index(e, code);
        if has_code(e, u.exchange_code@) {
            let ku = code_index(e, u.exchange_code@);
            assert(w[kc] == e[kc]);
        } else {
            assert(w[kc] == e[kc]);
        }
        let kw = code_index(w, code);
        if kw != kc {
            if kw < kc {
                assert(w[kw].exchange_code@ != w[kc].exchange_code@);
            } else {
                assert(w[kc].exchange_code@ != w[kw].exchange_code@);
            }
        }
    } else {
        if has_code(w, code) {
            let kw = code_index(w, code);
            if has_code(e, u.exchange_code@) {
                let ku = code_index(e, u.exchange_code@);
                if kw != ku {
                    assert(w[kw] == e[kw]);
                }
            } else {
                if kw < e.len() {
                    assert(w[kw] == e[kw]);
                }
            }
        }
    }
}

/// The entry of the exchange `code` among `entries`.
pub open spec fn entry_of(entries: Seq<ExchangeLevel>, code: Seq<char>) -> ExchangeLevel {
    entries[code_index(entries, code)]
}

pub(crate) proof fn lemma_without_code_gone(entries: Seq<ExchangeLevel>, code: Seq<char>)
    requires
        codes_unique(entries),
    ensures
        !has_code(without_code(entries, code), code),
{
    if has_code(entries, code) {
        let k = code_index(entries, code);
        let w = without_code(entries, code);
        if has_code(w, code) {
            let m = choose|m: int| 0 <= m < w.len() && w[m].exchange_code@ == code;
            let m0 = if m < k { m } else { m + 1 };
            assert(w[m] == entries[m0]);
            if m0 < k {
                assert(entries[m0].exchange_code@ != entries[k].exchange_code@);
            } else {
                assert(entries[k].exchange_code@ != entries[m0].exchange_code@);
            }
        }
    }
}

pub(crate) proof fn lemma_with_entry_at(lv: AggregateLevelView, u: ExchangeLevel)
    requires
        lv.wf(),
        u.wf(),
        u.price.value() == lv.price.value(),
    ensures
        has_code(with_entry(lv.entries, u), u.exchange_code@),
        entry_of(with_entry(lv.entries, u), u.exchange_code@) == u,
{
    let w = with_entry(lv.entries, u);
    lemma_with_entry_wf(lv, u);
    lemma_with_entry_has(lv.entries, u);
    let c = u.exchange_code@;
    let kw = code_index(w, c);
    let ku = if has_code(lv.entries, c) { code_index(lv.entries, c) } else { lv.entries.len() as int };
    assert(w[ku] == u);
    if kw < ku {
        assert(w[kw].exchange_code@ != w[ku].exchange_code@);
    } else if kw > ku {
        assert(w[ku].exchange_code@ != w[kw].exchange_code@);
    }
}

pub(crate) proof fn lemma_single_level_at(u: ExchangeLevel)
    ensures
        has_code(single_level(u).entries, u.exchange_code@),
        entry_of(single_level(u).entries, u.exchange_code@) == u,
{
    assert(single_level(u).entries[0] == u);
}

pub(crate) proof fn lemma_without_code_keeps_others(lv: AggregateLevelView, code: Seq<char>, c: Seq<char>)
    requires
        lv.wf(),
        c != code,
    ensures
        has_code(without_code(lv.entries, code), c) == has_code(lv.entries, c),
        has_code(lv.entries, c) ==> entry_of(without_code(lv.entries, code), c) == entry_of(lv.entries, c),
{
    let en = lv.entries;
    let w = without_code(en, code);
    lemma_without_code_wf(lv, code);
    if has_code(en, code) {
        let k = code_index(en, code);
        if has_code(en, c) {
            let kc = code_index(en, c);
            let kw = if kc < k { kc } else { kc - 1 };
            assert(w[kw] == en[kc]);
            let kx = code_index(w, c);
            if kx != kw {
                if kx < kw {
                    assert(w[kx].exchange_code@ != w[kw].exchange_code@);
                } else {
                    assert(w[kw].exchange_code@ != w[kx].exchange_code@);
                }
            }
        }
        if has_code(w, c) {
            let kx = code_index(w, c);
            let k0 = if kx < k { kx } else { kx + 1 };
            assert(w[kx] == en[k0]);
        }
    }
}

} // verus!
