//! The fetch/compute worker's bookkeeping: each symbol's fetch outcome is
//! recorded on its own, a failed fetch standing as an empty series, and the
//! statistics stage keeps only the symbols whose series is not empty.
//!
//! The series' samples are of any type `P`: computing on them is the
//! statistics' own business.
use vstd::prelude::*;

verus! {

/// A symbol's series as values: its symbol and its samples.
pub type EntryView<P> = (Seq<char>, Seq<P>);

/// The series a fetch outcome stands for: what was fetched, or nothing.
pub open spec fn outcome_series<P>(outcome: Option<Seq<P>>) -> Seq<P> {
    match outcome {
        Some(s) => s,
        None => seq![],
    }
}

/// Whether `symbol` has an entry in `m`.
pub open spec fn has_key<P>(m: Seq<EntryView<P>>, symbol: Seq<char>) -> bool {
    exists|i: int| 0 <= i < m.len() && #[trigger] m[i].0 == symbol
}

/// `m` with `series` recorded for `symbol`: it replaces the series the
/// symbol had, in place, or joins at the end.
pub open spec fn insert_entry<P>(m: Seq<EntryView<P>>, symbol: Seq<char>, series: Seq<P>) -> Seq<
    EntryView<P>,
> {
    if has_key(m, symbol) {
        let i = choose|i: int| 0 <= i < m.len() && #[trigger] m[i].0 == symbol;
        m.update(i, (symbol, series))
    } else {
        m.push((symbol, series))
    }
}

/// Every symbol has one entry at most.
pub open spec fn keys_unique<P>(m: Seq<EntryView<P>>) -> bool {
    forall|i: int, j: int| 0 <= i < j < m.len() ==> #[trigger] m[i].0 != #[trigger] m[j].0
}

/// The entries recorded, in order, for the symbols and fetch outcomes of a
/// chunk.
pub open spec fn record_all<P>(symbols: Seq<Seq<char>>, outcomes: Seq<Option<Seq<P>>>) -> Seq<
    EntryView<P>,
>
    decreases symbols.len(),
{
    if symbols.len() == 0 || outcomes.len() == 0 {
        seq![]
    } else {
        insert_entry(
            record_all(symbols.drop_last(), outcomes.drop_last()),
            symbols.last(),
            outcome_series(outcomes.last()),
        )
    }
}

/// Whether the entry's series has samples.
pub open spec fn has_samples<P>(e: EntryView<P>) -> bool {
    e.1.len() > 0
}

/// The entries the statistics stage turns into rows, in order.
pub open spec fn rows_due<P>(m: Seq<EntryView<P>>) -> Seq<EntryView<P>> {
    m.filter(|e: EntryView<P>| has_samples(e))
}

proof fn lemma_record_all_distinct<P>(symbols: Seq<Seq<char>>, outcomes: Seq<Option<Seq<P>>>)
    requires
        symbols.len() == outcomes.len(),
        symbols.no_duplicates(),
    ensures
        record_all(symbols, outcomes) == Seq::new(
            symbols.len(),
            |i: int| (symbols[i], outcome_series(outcomes[i])),
        ),
    decreases symbols.len(),
{
    if symbols.len() > 0 {
        let ks = symbols.drop_last();
        let os = outcomes.drop_last();
        assert(ks.no_duplicates());
        lemma_record_all_distinct(ks, os);
        let prev = record_all(ks, os);
        if has_key(prev, symbols.last()) {
            let i = choose|i: int| 0 <= i < prev.len() && #[trigger] prev[i].0 == symbols.last();
            assert(symbols[i] == symbols[symbols.len() - 1]);
        }
        assert(record_all(symbols, outcomes) =~= Seq::new(
            symbols.len(),
            |i: int| (symbols[i], outcome_series(outcomes[i])),
        ));
    }
}

/// Per-symbol isolation. For a chunk of distinct symbols, a symbol gets a
/// row exactly when its fetch succeeded with samples, and then with the
/// fetched series: a failed fetch leaves out that symbol alone.
pub proof fn lemma_per_symbol_isolation<P>(
    symbols: Seq<Seq<char>>,
    outcomes: Seq<Option<Seq<P>>>,
)
    requires
        symbols.len() == outcomes.len(),
        symbols.no_duplicates(),
    ensures
        forall|i: int|
            0 <= i < symbols.len() ==> (rows_due(record_all(symbols, outcomes)).contains(
                (symbols[i], outcome_series(outcomes[i])),
            ) <==> outcome_series(#[trigger] outcomes[i]).len() > 0),
        forall|i: int|
            0 <= i < symbols.len() && outcome_series(#[trigger] outcomes[i]).len() == 0 ==> !has_key(
                rows_due(record_all(symbols, outcomes)),
                symbols[i],
            ),
{
    lemma_record_all_distinct(symbols, outcomes);
    let m = record_all(symbols, outcomes);
    let pred = |e: EntryView<P>| has_samples(e);
    let due = m.filter(pred);
    assert forall|i: int| 0 <= i < symbols.len() implies (due.contains(
        (symbols[i], outcome_series(outcomes[i])),
    ) <==> outcome_series(#[trigger] outcomes[i]).len() > 0) by {
        assert(m[i] == (symbols[i], outcome_series(outcomes[i])));
        if outcome_series(outcomes[i]).len() > 0 {
            m.lemma_filter_contains(pred, i);
        }
        if due.contains((symbols[i], outcome_series(outcomes[i]))) {
            let j = choose|j: int| 0 <= j < due.len() && due[j] == (symbols[i], outcome_series(outcomes[i]));
            m.lemma_filter_pred(pred, j);
        }
    }
    assert forall|i: int|
        0 <= i < symbols.len() && outcome_series(#[trigger] outcomes[i]).len() == 0 implies !has_key(
        due,
        symbols[i],
    ) by {
        if has_key(due, symbols[i]) {
            let j = choose|j: int| 0 <= j < due.len() && #[trigger] due[j].0 == symbols[i];
            m.lemma_filter_pred(pred, j);
            assert(due.contains(due[j]));
            m.lemma_filter_contains_rev(pred, due[j]);
            let k = choose|k: int| 0 <= k < m.len() && m[k] == due[j];
            assert(symbols[k] == symbols[i]);
        }
    }
}

/// A symbol and its series.
pub struct SymbolSeries<P> {
    pub symbol: String,
    pub series: Vec<P>,
}

impl<P> SymbolSeries<P> {
    pub open spec fn view_entry(&self) -> EntryView<P> {
        (self.symbol@, self.series@)
    }
}

/// The views of a sequence of entries.
pub open spec fn entry_views<P>(v: Seq<SymbolSeries<P>>) -> Seq<EntryView<P>> {
    v.map_values(|e: SymbolSeries<P>| e.view_entry())
}

/// The series fetched for the symbols of a chunk, one entry per symbol, in
/// the order the symbols were first recorded.
pub struct SeriesMap<P> {
    entries: Vec<SymbolSeries<P>>,
}

impl<P> View for SeriesMap<P> {
    type V = Seq<EntryView<P>>;

    closed spec fn view(&self) -> Seq<EntryView<P>> {
        entry_views(self.entries@)
    }
}

/// The series a fetch outcome stands for: the fetched series, or an empty
/// one where the fetch failed.
pub fn series_or_empty<P, E>(outcome: Result<Vec<P>, E>) -> (r: Vec<P>)
    ensures
        r@ == outcome_series(
            match outcome {
                Ok(v) => Some(v@),
                Err(_) => None,
            },
        ),
{
    match outcome {
        Ok(v) => v,
        Err(_) => Vec::new(),
    }
}

impl<P> SeriesMap<P> {
    /// No symbol has more than one entry.
    pub open spec fn wf(&self) -> bool {
        keys_unique(self@)
    }

    /// An empty map.
    pub fn new() -> (r: Self)
        ensures
            r@ == Seq::<EntryView<P>>::empty(),
            r.wf(),
    {
        let r = SeriesMap { entries: Vec::new() };
        assert(r@ =~= Seq::<EntryView<P>>::empty());
        r
    }

    /// Number of symbols recorded.
    pub fn len(&self) -> (r: usize)
        ensures
            r == self@.len(),
    {
        self.entries.len()
    }

    /// Records `series` for `symbol`, replacing the series it had.
    pub fn insert(&mut self, symbol: String, series: Vec<P>)
        requires
            old(self).wf(),
        ensures
            final(self).wf(),
            final(self)@ == insert_entry(old(self)@, symbol@, series@),
    {
        let mut i: usize = 0;
        while i < self.entries.len()
            invariant
                i <= self@.len(),
                self@.len() == self.entries@.len(),
                self@ == old(self)@,
                self.wf(),
                forall|j: int| 0 <= j < i ==> #[trigger] self@[j].0 != symbol@,
            decreases self.entries@.len() - i,
        {
            assert(self@[i as int].0 == self.entries@[i as int].symbol@);
            if self.entries[i].symbol == symbol {
                let ghost before = self@;
                proof {
                    assert(has_key(before, symbol@));
                    let k = choose|k: int| 0 <= k < before.len() && #[trigger] before[k].0 == symbol@;
                    assert(k == i);
                }
                let entry = SymbolSeries { symbol, series };
                let ghost ev = entry.view_entry();
                self.entries.set(i, entry);
                proof {
                    assert(self@ =~= before.update(i as int, ev));
                }
                return;
            }
            i = i + 1;
        }
        let ghost before = self@;
        let entry = SymbolSeries { symbol, series };
        let ghost ev = entry.view_entry();
        self.entries.push(entry);
        proof {
            assert(!has_key(before, ev.0));
            assert(self@ =~= before.push(ev));
        }
    }

    /// Records a symbol's fetch outcome: the fetched series, or an empty
    /// series where the fetch failed; a failure never affects the other
    /// symbols.
    pub fn record<E>(&mut self, symbol: String, outcome: Result<Vec<P>, E>)
        requires
            old(self).wf(),
        ensures
            final(self).wf(),
            final(self)@ == insert_entry(
                old(self)@,
                symbol@,
                outcome_series(
                    match outcome {
                        Ok(v) => Some(v@),
                        Err(_) => None,
                    },
                ),
            ),
    {
        let series = series_or_empty(outcome);
        self.insert(symbol, series);
    }

    /// The entries whose series has samples, in order: the symbols the
    /// statistics stage makes rows for. The others are skipped.
    pub fn into_rows_due(self) -> (r: Vec<SymbolSeries<P>>)
        ensures
            entry_views(r@) == rows_due(self@),
    {
        let ghost all = self@;
        let mut out: Vec<SymbolSeries<P>> = Vec::new();
        let mut entries = self.entries;
        let ghost pred = |e: EntryView<P>| has_samples(e);
        let ghost n = entries@.len();
        let mut rest: Vec<SymbolSeries<P>> = Vec::new();
        // Take the entries from the back, then restore their order.
        while entries.len() > 0
            invariant
                entry_views(entries@) + entry_views(rest@).reverse() == all,
            decreases entries@.len(),
        {
            let ghost before_e = entry_views(entries@);
            let ghost before_r = entry_views(rest@);
            let e = entries.pop().unwrap();
            let ghost ev = e.view_entry();
            rest.push(e);
            proof {
                assert(entry_views(entries@) =~= before_e.drop_last());
                assert(entry_views(rest@) =~= before_r.push(ev));
                assert(before_e.last() == ev);
                assert(entry_views(rest@).reverse() =~= seq![ev] + before_r.reverse());
                assert(entry_views(entries@) + entry_views(rest@).reverse() =~= before_e
                    + before_r.reverse());
            }
        }
        proof {
            assert(entry_views(entries@) =~= Seq::<EntryView<P>>::empty());
            assert(entry_views(rest@).reverse() =~= all);
        }
        while rest.len() > 0
            invariant
                entry_views(rest@).len() <= all.len(),
                entry_views(out@) == all.take(all.len() - entry_views(rest@).len()).filter(pred),
                entry_views(rest@).reverse() == all.skip(all.len() - entry_views(rest@).len()),
                pred == (|e: EntryView<P>| has_samples(e)),
            decreases rest@.len(),
        {
            let ghost before_o = entry_views(out@);
            let ghost before_r = entry_views(rest@);
            let e = rest.pop().unwrap();
            let ghost ev = e.view_entry();
            let ghost k = all.len() - before_r.len();
            proof {
                assert(entry_views(rest@) =~= before_r.drop_last());
                assert(before_r.reverse()[0] == ev);
                assert(all.skip(k)[0] == all[k]);
                assert(all[k] == ev);
                assert(all.take(k + 1).drop_last() =~= all.take(k));
                assert(all.take(k + 1).last() == ev);
                assert(before_r.drop_last().reverse() =~= before_r.reverse().skip(1));
                assert(all.skip(k).skip(1) =~= all.skip(k + 1));
                assert(entry_views(rest@).reverse() =~= all.skip(k + 1));
            }
            if e.series.len() > 0 {
                out.push(e);
                proof {
                    assert(entry_views(out@) =~= before_o.push(ev));
                }
            }
            proof {
                reveal(Seq::filter);
                assert(all.take(k + 1).filter(pred) == if pred(ev) {
                    all.take(k).filter(pred).push(ev)
                } else {
                    all.take(k).filter(pred)
                });
            }
        }
        proof {
            assert(all.take(all.len() as int) =~= all);
        }
        out
    }
}

} // verus!
