use vstd::prelude::*;

use crate::csvfmt::views;
use crate::quote::{CSVQuote, QuoteView};

verus! {

/// Why one symbol's fetch produced no record this cycle. Both cases are
/// recoverable: the symbol is skipped and the cycle goes on.
#[derive(Debug, Clone, PartialEq, Eq)]
pub enum FetchError {
    /// The provider could not be reached or answered with an error; the
    /// cause is kept as text for the operator's log line.
    ProviderUnavailable { cause: String },
    /// The provider answered but held no usable latest quote.
    NoData,
}

/// The records that a sequence of per-symbol outcomes yields: one per
/// success, in outcome order; a failed outcome leaves no trace.
pub open spec fn collected(outcomes: Seq<Option<QuoteView>>) -> Seq<QuoteView>
    decreases outcomes.len(),
{
    if outcomes.len() == 0 {
        Seq::empty()
    } else {
        collected(outcomes.drop_last()) + (match outcomes.last() {
            Some(q) => seq![q],
            None => Seq::empty(),
        })
    }
}

pub open spec fn names(b: Seq<QuoteView>) -> Seq<Seq<u8>> {
    b.map_values(|q: QuoteView| q.name)
}

pub open spec fn sym_views(s: Seq<Vec<u8>>) -> Seq<Seq<u8>> {
    s.map_values(|v: Vec<u8>| v@)
}

/// `xs` appears inside `ys` in order, possibly with gaps.
pub open spec fn subseq_of(xs: Seq<Seq<u8>>, ys: Seq<Seq<u8>>) -> bool
    decreases xs.len() + ys.len(),
{
    if xs.len() == 0 {
        true
    } else if ys.len() == 0 {
        false
    } else if xs.first() == ys.first() {
        subseq_of(xs.drop_first(), ys.drop_first())
    } else {
        subseq_of(xs, ys.drop_first())
    }
}

pub proof fn lemma_subseq_extend_right(xs: Seq<Seq<u8>>, ys: Seq<Seq<u8>>, z: Seq<u8>)
    requires
        subseq_of(xs, ys),
    ensures
        subseq_of(xs, ys.push(z)),
    decreases xs.len() + ys.len(),
{
    let yz = ys.push(z);
    if xs.len() == 0 {
    } else if ys.len() == 0 {
        assert(false);
    } else {
        assert(yz.first() == ys.first());
        assert(yz.drop_first() =~= ys.drop_first().push(z));
        if xs.first() == ys.first() {
            lemma_subseq_extend_right(xs.drop_first(), ys.drop_first(), z);
        } else {
            lemma_subseq_extend_right(xs, ys.drop_first(), z);
        }
    }
}

proof fn lemma_subseq_single(z: Seq<u8>, ys: Seq<Seq<u8>>)
    ensures
        subseq_of(seq![z], ys.push(z)),
    decreases ys.len(),
{
    let yz = ys.push(z);
    let xs = seq![z];
    assert(xs.first() == z);
    assert(xs.drop_first() =~= Seq::<Seq<u8>>::empty());
    if ys.len() == 0 {
        assert(yz.first() == z);
        assert(yz.drop_first() =~= Seq::<Seq<u8>>::empty());
        assert(subseq_of(xs.drop_first(), yz.drop_first()));
        assert(subseq_of(xs, yz));
    } else {
        assert(yz.first() == ys.first());
        assert(yz.drop_first() =~= ys.drop_first().push(z));
        if z == ys.first() {
            assert(subseq_of(xs.drop_first(), yz.drop_first()));
            assert(subseq_of(xs, yz));
        } else {
            lemma_subseq_single(z, ys.drop_first());
            assert(subseq_of(xs, yz.drop_first()));
            assert(subseq_of(xs, yz));
        }
    }
}

pub proof fn lemma_subseq_push_both(xs: Seq<Seq<u8>>, ys: Seq<Seq<u8>>, z: Seq<u8>)
    requires
        subseq_of(xs, ys),
    ensures
        subseq_of(xs.push(z), ys.push(z)),
    decreases xs.len() + ys.len(),
{
    let xz = xs.push(z);
    let yz = ys.push(z);
    if xs.len() == 0 {
        assert(xz =~= seq![z]);
        lemma_subseq_single(z, ys);
    } else if ys.len() == 0 {
        assert(false);
    } else {
        assert(xz.first() == xs.first());
        assert(yz.first() == ys.first());
        assert(xz.drop_first() =~= xs.drop_first().push(z));
        assert(yz.drop_first() =~= ys.drop_first().push(z));
        if xs.first() == ys.first() {
            lemma_subseq_push_both(xs.drop_first(), ys.drop_first(), z);
        } else {
            lemma_subseq_push_both(xs, ys.drop_first(), z);
        }
    }
}

pub proof fn lemma_subseq_len(xs: Seq<Seq<u8>>, ys: Seq<Seq<u8>>)
    requires
        subseq_of(xs, ys),
    ensures
        xs.len() <= ys.len(),
    decreases xs.len() + ys.len(),
{
    if xs.len() == 0 {
    } else if ys.len() == 0 {
        assert(false);
    } else if xs.first() == ys.first() {
        lemma_subseq_len(xs.drop_first(), ys.drop_first());
    } else {
        lemma_subseq_len(xs, ys.drop_first());
    }
}

/// One cycle in progress: the configured symbols are attempted in order,
/// each exactly once, and the successes gather in the batch. The ghost
/// history keeps one outcome per attempted symbol.
pub struct CycleState {
    pub symbols: Vec<Vec<u8>>,
    pub next: usize,
    pub batch: Vec<CSVQuote>,
    pub history: Ghost<Seq<Option<QuoteView>>>,
}

impl CycleState {
    /// The cycle's invariant: one recorded outcome per attempted symbol,
    /// the batch is exactly the successes in order, and the batch's
    /// symbols are a subsequence of the attempted symbols in order.
    pub open spec fn wf(&self) -> bool {
        &&& self.next <= self.symbols@.len()
        &&& self.history@.len() == self.next
        &&& views(self.batch@) == collected(self.history@)
        &&& subseq_of(names(views(self.batch@)), sym_views(self.symbols@).take(self.next as int))
    }

    /// Starts a cycle over the configured symbols with an empty batch.
    pub fn begin(symbols: Vec<Vec<u8>>) -> (c: Self)
        ensures
            c.wf(),
            c.symbols@ == symbols@,
            c.next == 0,
            c.batch@.len() == 0,
            c.history@ == Seq::<Option<QuoteView>>::empty(),
    {
        let c = CycleState {
            symbols,
            next: 0,
            batch: Vec::new(),
            history: Ghost(Seq::empty()),
        };
        proof {
            assert(views(c.batch@) =~= collected(c.history@));
            assert(names(views(c.batch@)).len() == 0);
        }
        c
    }

    /// The symbol to attempt next; `None` once every symbol was attempted.
    pub fn next_symbol(&self) -> (r: Option<&Vec<u8>>)
        requires
            self.wf(),
        ensures
            match r {
                Some(s) => self.next < self.symbols@.len() && s@ == self.symbols@[
                    self.next as int
                ]@,
                None => self.next == self.symbols@.len(),
            },
    {
        if self.next < self.symbols.len() {
            Some(&self.symbols[self.next])
        } else {
            None
        }
    }

    /// Records a successful fetch of the current symbol: its record joins
    /// the batch and the cycle moves to the next symbol.
    pub fn record_success(&mut self, q: CSVQuote)
        requires
            old(self).wf(),
            old(self).next < old(self).symbols@.len(),
            q@.name == old(self).symbols@[old(self).next as int]@,
        ensures
            final(self).wf(),
            final(self).symbols@ == old(self).symbols@,
            final(self).next == old(self).next + 1,
            final(self).batch@ == old(self).batch@.push(q),
            final(self).history@ == old(self).history@.push(Some(q@)),
    {
        proof {
            let h = self.history@;
            let hq = h.push(Some(q@));
            assert(hq.drop_last() =~= h);
            assert(collected(hq) == collected(h) + seq![q@]);
            assert(views(self.batch@.push(q)) =~= views(self.batch@) + seq![q@]);
            assert(views(self.batch@) + seq![q@] =~= views(self.batch@).push(q@));
            assert(names(views(self.batch@).push(q@)) =~= names(views(self.batch@)).push(q@.name));
            let syms = sym_views(self.symbols@);
            assert(syms.take(self.next + 1) =~= syms.take(self.next as int).push(
                self.symbols@[self.next as int]@,
            ));
            lemma_subseq_push_both(
                names(views(self.batch@)),
                syms.take(self.next as int),
                q@.name,
            );
        }
        self.batch.push(q);
        let len = self.symbols.len();
        assert(self.next < len);
        self.next = self.next + 1;
        self.history = Ghost(self.history@.push(Some(q@)));
    }

    /// Records a failed fetch of the current symbol: whatever the error,
    /// the batch is left untouched and the cycle moves on, so one
    /// symbol's failure never costs another symbol its record.
    pub fn record_failure(&mut self, err: &FetchError)
        requires
            old(self).wf(),
            old(self).next < old(self).symbols@.len(),
        ensures
            final(self).wf(),
            final(self).symbols@ == old(self).symbols@,
            final(self).next == old(self).next + 1,
            final(self).batch@ == old(self).batch@,
            final(self).history@ == old(self).history@.push(None),
    {
        let _ = err;
        proof {
            let h = self.history@;
            let hn = h.push(None);
            assert(hn.drop_last() =~= h);
            assert(collected(hn) =~= collected(h));
            let syms = sym_views(self.symbols@);
            assert(syms.take(self.next + 1) =~= syms.take(self.next as int).push(
                self.symbols@[self.next as int]@,
            ));
            lemma_subseq_extend_right(
                names(views(self.batch@)),
                syms.take(self.next as int),
                self.symbols@[self.next as int]@,
            );
        }
        let len = self.symbols.len();
        assert(self.next < len);
        self.next = self.next + 1;
        self.history = Ghost(self.history@.push(None));
    }

    /// True once every configured symbol has been attempted.
    pub fn done(&self) -> (r: bool)
        ensures
            r == (self.next == self.symbols@.len()),
    {
        self.next == self.symbols.len()
    }

    /// Ends a completed cycle and hands over the batch. Exactly one
    /// outcome was recorded per configured symbol; the batch holds the
    /// successes in configured order, so it is never longer than the
    /// symbol list and its order is a subsequence of the configured one.
    pub fn finish(self) -> (batch: Vec<CSVQuote>)
        requires
            self.wf(),
            self.next == self.symbols@.len(),
        ensures
            views(batch@) == collected(self.history@),
            self.history@.len() == self.symbols@.len(),
            subseq_of(names(views(batch@)), sym_views(self.symbols@)),
            batch@.len() <= self.symbols@.len(),
    {
        proof {
            let syms = sym_views(self.symbols@);
            assert(syms.take(self.next as int) =~= syms);
            lemma_subseq_len(names(views(self.batch@)), syms);
        }
        self.batch
    }
}

/// A recorded success is in the collected batch, wherever it stands.
pub proof fn lemma_collected_contains(o: Seq<Option<QuoteView>>, j: int)
    requires
        0 <= j < o.len(),
        o[j] is Some,
    ensures
        collected(o).contains(o[j].unwrap()),
    decreases o.len(),
{
    let v = o[j].unwrap();
    if j == o.len() - 1 {
        let c = collected(o.drop_last());
        assert(collected(o) == c + seq![v]);
        assert(collected(o)[c.len() as int] == v);
    } else {
        assert(o.drop_last()[j] == o[j]);
        lemma_collected_contains(o.drop_last(), j);
        let c = collected(o.drop_last());
        let k = choose|k: int| 0 <= k < c.len() && c[k] == v;
        assert(collected(o)[k] == v);
    }
}

/// One symbol's failure never prevents another symbol's record: turn any
/// one outcome into a failure and every other success still reaches the
/// collected batch.
pub proof fn lemma_failure_isolated(o: Seq<Option<QuoteView>>, i: int, j: int)
    requires
        0 <= i < o.len(),
        0 <= j < o.len(),
        i != j,
        o[j] is Some,
    ensures
        collected(o.update(i, None)).contains(o[j].unwrap()),
{
    let o2 = o.update(i, None);
    assert(o2[j] == o[j]);
    lemma_collected_contains(o2, j);
}

} // verus!
