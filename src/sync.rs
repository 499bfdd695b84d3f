//! Per-symbol sequencing of deltas against snapshots.
use vstd::prelude::*;
use crate::book::{
    apply_delta_view, lemma_apply_changes_no_zero, lemma_books_identical,
    no_zero_sizes, BookView, Delta, Orderbook, TopOfBook,
};

verus! {

/// What became of one delta handed to a synchroniser.
#[derive(Debug, Clone, Copy, PartialEq, Eq, Structural)]
pub enum DeltaOutcome {
    /// Applied to the book; `top_changed` tells whether the best bid or the
    /// best ask moved.
    Applied { top_changed: bool },
    /// Already covered by the book's sequence, and dropped.
    Stale,
    /// Held until a snapshot arrives; `request_snapshot` tells whether a
    /// snapshot must be requested now.
    Buffered { request_snapshot: bool },
}

/// A book followed by deltas, replayed in order.
pub enum Replay {
    /// Every delta was stale or continued the book: the resulting book.
    Synced(BookView),
    /// A delta left a gap: it and the deltas after it, still to be applied.
    Desynced(Seq<Delta>),
}

/// One delta against a book: dropped if stale, a gap if it starts past the
/// next sequence, applied otherwise.
pub open spec fn replay_step(b: BookView, d: Delta) -> Replay {
    if d.to_seq <= b.sequence {
        Replay::Synced(b)
    } else if d.from_seq > b.sequence + 1 {
        Replay::Desynced(seq![d])
    } else {
        Replay::Synced(apply_delta_view(b, d))
    }
}

/// The buffered deltas `ds` replayed in order on a snapshot `b`.
pub open spec fn replay(b: BookView, ds: Seq<Delta>) -> Replay
    decreases ds.len(),
{
    if ds.len() == 0 {
        Replay::Synced(b)
    } else {
        match replay(b, ds.drop_last()) {
            Replay::Synced(b2) => replay_step(b2, ds.last()),
            Replay::Desynced(rest) => Replay::Desynced(rest.push(ds.last())),
        }
    }
}

/// Whether two optional levels are the same.
pub fn same_level(a: Option<crate::book::Level>, b: Option<crate::book::Level>) -> (r: bool)
    ensures
        r == (a == b),
{
    match (a, b) {
        (None, None) => true,
        (Some(x), Some(y)) => x.price == y.price && x.size == y.size,
        _ => false,
    }
}

/// Whether two tops of book are the same.
pub fn same_top(a: TopOfBook, b: TopOfBook) -> (r: bool)
    ensures
        r == (a == b),
{
    same_level(a.best_bid, b.best_bid) && same_level(a.best_ask, b.best_ask)
}

/// Replaying on a snapshot buffered deltas that all end at or before the
/// snapshot's sequence leaves the snapshot unchanged.
pub proof fn lemma_replay_covered_is_identity(b: BookView, ds: Seq<Delta>)
    requires
        forall|k: int| 0 <= k < ds.len() ==> (#[trigger] ds[k]).to_seq <= b.sequence,
    ensures
        replay(b, ds) == Replay::Synced(b),
    decreases ds.len(),
{
    if ds.len() > 0 {
        lemma_replay_covered_is_identity(b, ds.drop_last());
    }
}

/// Replaying deltas never moves a book's sequence backwards and never
/// leaves a zero-size level.
pub proof fn lemma_replay_monotone_no_zero(b: BookView, ds: Seq<Delta>)
    requires
        no_zero_sizes(b.bids),
        no_zero_sizes(b.asks),
    ensures
        replay(b, ds) matches Replay::Synced(b2) ==> b2.sequence >= b.sequence && no_zero_sizes(
            b2.bids,
        ) && no_zero_sizes(b2.asks),
    decreases ds.len(),
{
    if ds.len() > 0 {
        lemma_replay_monotone_no_zero(b, ds.drop_last());
        if let Replay::Synced(b2) = replay(b, ds.drop_last()) {
            lemma_apply_changes_no_zero(b2.bids, ds.last().bids@);
            lemma_apply_changes_no_zero(b2.asks, ds.last().asks@);
        }
    }
}


/// What handing delta `d` to synchroniser `s0` leaves (`s1`) and returns
/// (`r`): without a book the delta is buffered and a snapshot requested
/// once; a delta already covered by the book is dropped; one that starts
/// past the book's next sequence drops the book and is buffered with a
/// snapshot request; any other is applied.
pub open spec fn delta_post(s0: SymbolSync, s1: SymbolSync, d: Delta, r: DeltaOutcome) -> bool {
    match s0.book {
        None => {
            &&& s1.book.is_none()
            &&& s1.pending@ == s0.pending@.push(d)
            &&& s1.awaiting_snapshot
            &&& r == DeltaOutcome::Buffered { request_snapshot: !s0.awaiting_snapshot }
        },
        Some(b) => if d.to_seq <= b.sequence {
            &&& s1 == s0
            &&& r == DeltaOutcome::Stale
        } else if d.from_seq > b.sequence + 1 {
            &&& s1.book.is_none()
            &&& s1.pending@ == seq![d]
            &&& s1.awaiting_snapshot
            &&& r == DeltaOutcome::Buffered { request_snapshot: true }
        } else {
            &&& s1.book matches Some(nb) && nb@ == apply_delta_view(b@, d)
                && r == DeltaOutcome::Applied { top_changed: nb.top_spec() != b.top_spec() }
            &&& s1.book.unwrap().sequence >= b.sequence
        },
    }
}

/// Whether two synchronisers hold identical books, level for level, and
/// the same buffered deltas.
pub open spec fn same_state(a: SymbolSync, b: SymbolSync) -> bool {
    &&& match (a.book, b.book) {
        (None, None) => true,
        (Some(x), Some(y)) => x.sequence == y.sequence && x.bids.levels@ == y.bids.levels@
            && x.asks.levels@ == y.asks.levels@,
        _ => false,
    }
    &&& a.pending@ == b.pending@
    &&& a.awaiting_snapshot == b.awaiting_snapshot
}

/// Two synchronisers in the same state that are handed the same delta
/// return the same outcome and stay in the same state, level for level.
pub proof fn lemma_same_delta_same_state(
    a0: SymbolSync,
    b0: SymbolSync,
    a1: SymbolSync,
    b1: SymbolSync,
    d: Delta,
    ra: DeltaOutcome,
    rb: DeltaOutcome,
)
    requires
        a0.wf(),
        b0.wf(),
        a1.wf(),
        b1.wf(),
        same_state(a0, b0),
        delta_post(a0, a1, d, ra),
        delta_post(b0, b1, d, rb),
    ensures
        same_state(a1, b1),
        ra == rb,
{
    match (a0.book, b0.book) {
        (Some(x), Some(y)) => {
            assert(x@ == y@);
            if d.to_seq > x.sequence && d.from_seq <= x.sequence + 1 {
                let nx = a1.book.unwrap();
                let ny = b1.book.unwrap();
                lemma_books_identical(nx, ny);
                assert(x.top_spec() == y.top_spec());
                assert(nx.top_spec() == ny.top_spec());
                assert(a1.pending@ =~= b1.pending@);
            }
        },
        _ => {},
    }
}

/// A delta that skips even one sequence past the book drops the book and
/// triggers a new snapshot.
pub proof fn lemma_gap_requests_snapshot(s0: SymbolSync, s1: SymbolSync, d: Delta, r: DeltaOutcome)
    requires
        s0.book matches Some(b) && d.from_seq > b.sequence + 1 && d.to_seq >= d.from_seq,
        delta_post(s0, s1, d, r),
    ensures
        r == (DeltaOutcome::Buffered { request_snapshot: true }),
        s1.book is None,
        s1.pending@ == seq![d],
{
}

/// Whether the buffered deltas `ds` follow each other without a gap and
/// the first of them reaches back to the snapshot at `seq`.
pub open spec fn gap_free_after(seq: u64, ds: Seq<Delta>) -> bool {
    &&& ds.len() > 0 ==> ds[0].from_seq <= seq + 1
    &&& forall|k: int|
        0 < k < ds.len() ==> (#[trigger] ds[k]).from_seq <= ds[k - 1].to_seq + 1 && ds[k - 1].to_seq
            <= ds[k].to_seq
}

/// A snapshot followed by a gap-free buffer replays to a synced book: the
/// deltas ending at or before the snapshot are dropped, the others are
/// applied in order, and the book ends at the larger of the snapshot's
/// sequence and the last delta's.
pub proof fn lemma_replay_gap_free(b: BookView, ds: Seq<Delta>)
    requires
        gap_free_after(b.sequence, ds),
    ensures
        replay(b, ds) matches Replay::Synced(b2) && b2.sequence == (if ds.len() > 0
            && ds.last().to_seq > b.sequence {
            ds.last().to_seq
        } else {
            b.sequence
        }),
    decreases ds.len(),
{
    if ds.len() > 1 {
        let p = ds.drop_last();
        assert(gap_free_after(b.sequence, p)) by {
            assert forall|k: int| 0 < k < p.len() implies (#[trigger] p[k]).from_seq <= p[k - 1].to_seq
                + 1 && p[k - 1].to_seq <= p[k].to_seq by {
                assert(p[k] == ds[k] && p[k - 1] == ds[k - 1]);
            }
        }
        lemma_replay_gap_free(b, p);
        assert(p.last() == ds[ds.len() - 2]);
        assert(ds.last() == ds[ds.len() - 1]);
        assert(ds[ds.len() - 1].from_seq <= ds[ds.len() - 2].to_seq + 1);
        assert(ds[ds.len() - 2].to_seq <= ds[ds.len() - 1].to_seq);
        if let Replay::Synced(b1) = replay(b, p) {
            assert(replay(b, ds) == replay_step(b1, ds.last()));
            let d = ds.last();
            if d.to_seq <= b1.sequence {
                assert(replay(b, ds) == Replay::Synced(b1));
            } else {
                assert(d.from_seq <= b1.sequence + 1);
                assert(replay(b, ds) == Replay::Synced(apply_delta_view(b1, d)));
            }
        }
    } else if ds.len() == 1 {
        assert(ds.drop_last() =~= Seq::<Delta>::empty());
        assert(ds.last() == ds[0]);
        assert(replay(b, ds.drop_last()) == Replay::Synced(b));
        assert(replay(b, ds) == replay_step(b, ds[0]));
    }
}

/// The synchroniser of one symbol: its book once a snapshot has been
/// installed, and the deltas held while it waits for one.
#[derive(Debug)]
pub struct SymbolSync {
    pub book: Option<Orderbook>,
    pub pending: Vec<Delta>,
    pub awaiting_snapshot: bool,
}

impl SymbolSync {
    pub open spec fn wf(&self) -> bool {
        &&& forall|i: int| 0 <= i < self.pending@.len() ==> (#[trigger] self.pending@[i]).wf()
        &&& match self.book {
            Some(b) => b.wf() && self.pending@.len() == 0 && !self.awaiting_snapshot,
            None => true,
        }
    }

    /// A synchroniser with no book yet.
    pub fn new() -> (r: SymbolSync)
        ensures
            r.wf(),
            r.book.is_none(),
            r.pending@.len() == 0,
            !r.awaiting_snapshot,
    {
        SymbolSync { book: None, pending: Vec::new(), awaiting_snapshot: false }
    }

    /// Handles one delta. Without a book the delta is buffered and a
    /// snapshot requested, once. A delta already covered by the book is
    /// dropped. A delta that starts past the book's next sequence drops the
    /// book, is buffered and has a snapshot requested. Any other delta is
    /// applied.
    pub fn on_delta(&mut self, d: Delta) -> (r: DeltaOutcome)
        requires
            old(self).wf(),
            d.wf(),
        ensures
            final(self).wf(),
            delta_post(*old(self), *final(self), d, r),
    {
        let mut book = match self.book.take() {
            Some(b) => b,
            None => {
                let request = !self.awaiting_snapshot;
                self.pending.push(d);
                self.awaiting_snapshot = true;
                return DeltaOutcome::Buffered { request_snapshot: request };
            },
        };
        if d.to_seq <= book.sequence {
            self.book = Some(book);
            return DeltaOutcome::Stale;
        }
        if d.from_seq > book.sequence + 1 {
            let mut pending: Vec<Delta> = Vec::new();
            pending.push(d);
            self.pending = pending;
            self.awaiting_snapshot = true;
            return DeltaOutcome::Buffered { request_snapshot: true };
        }
        let before = book.top();
        book.apply_delta(&d);
        let after = book.top();
        self.book = Some(book);
        DeltaOutcome::Applied { top_changed: !same_top(before, after) }
    }
    /// Installs a snapshot and replays the buffered deltas on it in order.
    /// Returns whether the book is now in sync; if a buffered delta left a
    /// gap, the book is dropped again, that delta and the ones after it stay
    /// buffered, and a new snapshot must be requested.
    pub fn on_snapshot(&mut self, snapshot: Orderbook) -> (synced: bool)
        requires
            old(self).wf(),
            snapshot.wf(),
        ensures
            final(self).wf(),
            match replay(snapshot@, old(self).pending@) {
                Replay::Synced(b) => {
                    &&& synced
                    &&& final(self).book matches Some(nb) && nb@ == b
                    &&& final(self).pending@.len() == 0
                    &&& !final(self).awaiting_snapshot
                },
                Replay::Desynced(rest) => {
                    &&& !synced
                    &&& final(self).book.is_none()
                    &&& final(self).pending@ == rest
                    &&& final(self).awaiting_snapshot
                },
            },
    {
        let ghost ds = self.pending@;
        let mut pending: Vec<Delta> = Vec::new();
        std::mem::swap(&mut pending, &mut self.pending);
        let mut book = snapshot;
        let mut in_sync = true;
        let mut rest: Vec<Delta> = Vec::new();
        let ghost mut i: int = 0;
        while pending.len() > 0
            invariant
                0 <= i <= ds.len(),
                pending@ == ds.subrange(i, ds.len() as int),
                forall|k: int| 0 <= k < ds.len() ==> (#[trigger] ds[k]).wf(),
                book.wf(),
                forall|k: int| 0 <= k < rest@.len() ==> (#[trigger] rest@[k]).wf(),
                match replay(snapshot@, ds.subrange(0, i)) {
                    Replay::Synced(b) => in_sync && book@ == b && rest@.len() == 0,
                    Replay::Desynced(r) => !in_sync && rest@ == r,
                },
            decreases pending@.len(),
        {
            let d = pending.remove(0);
            proof {
                assert(d == ds[i]);
                assert(ds.subrange(0, i + 1).drop_last() =~= ds.subrange(0, i));
                assert(ds.subrange(0, i + 1).last() == ds[i]);
            }
            if !in_sync {
                rest.push(d);
            } else if d.to_seq <= book.sequence {
            } else if d.from_seq > book.sequence + 1 {
                rest.push(d);
                in_sync = false;
                proof {
                    assert(rest@ =~= seq![d]);
                }
            } else {
                book.apply_delta(&d);
            }
            proof {
                i = i + 1;
                assert(pending@ =~= ds.subrange(i, ds.len() as int));
            }
        }
        proof {
            assert(ds.subrange(0, ds.len() as int) =~= ds);
        }
        if in_sync {
            self.book = Some(book);
            self.awaiting_snapshot = false;
            true
        } else {
            self.book = None;
            self.pending = rest;
            self.awaiting_snapshot = true;
            false
        }
    }
    /// Drops the book and anything buffered, as after an update that cannot
    /// be applied; returns whether a snapshot must be requested now.
    pub fn invalidate(&mut self) -> (request_snapshot: bool)
        requires
            old(self).wf(),
        ensures
            final(self).wf(),
            final(self).book.is_none(),
            final(self).pending@.len() == 0,
            final(self).awaiting_snapshot,
            request_snapshot == !old(self).awaiting_snapshot,
    {
        let request = !self.awaiting_snapshot;
        self.book = None;
        self.pending = Vec::new();
        self.awaiting_snapshot = true;
        request
    }
}

} // verus!
