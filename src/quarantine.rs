//! Quarantine of symbols whose books keep falling out of sync.
use vstd::prelude::*;
use crate::gatekeeper::{sat_add, saturating_add};

verus! {

/// Per-symbol count of invariant violations within a sliding window; a
/// symbol with more than `max_events` violations in one window of
/// `window_ms` is quarantined.
#[derive(Debug)]
pub struct DesyncGuard {
    pub max_events: u64,
    pub window_ms: u64,
    pub window_start: Vec<u64>,
    pub count: Vec<u64>,
    pub quarantined: Vec<bool>,
}

/// Whether a violation at `now` opens a new window after one opened at
/// `start`.
pub open spec fn opens_window(start: u64, now: u64, window: u64) -> bool {
    now >= start && now - start >= window
}

impl DesyncGuard {
    pub open spec fn wf(&self) -> bool {
        &&& self.count@.len() == self.window_start@.len()
        &&& self.quarantined@.len() == self.window_start@.len()
    }

    /// A guard over `n_symbols` symbols, none quarantined.
    pub fn new(max_events: u64, window_ms: u64, n_symbols: usize) -> (r: DesyncGuard)
        ensures
            r.wf(),
            r.max_events == max_events,
            r.window_ms == window_ms,
            r.window_start@.len() == n_symbols,
            forall|i: int| 0 <= i < n_symbols ==> r.count@[i] == 0 && r.window_start@[i] == 0
                && !r.quarantined@[i],
    {
        let mut start: Vec<u64> = Vec::new();
        let mut count: Vec<u64> = Vec::new();
        let mut q: Vec<bool> = Vec::new();
        let mut i: usize = 0;
        while i < n_symbols
            invariant
                i <= n_symbols,
                start@.len() == i,
                count@.len() == i,
                q@.len() == i,
                forall|k: int| 0 <= k < i ==> count@[k] == 0 && start@[k] == 0 && !q@[k],
            decreases n_symbols - i,
        {
            start.push(0);
            count.push(0);
            q.push(false);
            i = i + 1;
        }
        DesyncGuard { max_events, window_ms, window_start: start, count, quarantined: q }
    }

    /// Records a violation on `symbol` at `now_ms`: it opens a new window
    /// (count one) once the current one has run out, else adds to the
    /// count. The symbol is quarantined once the count passes the limit,
    /// and stays so. Returns whether it is quarantined.
    pub fn on_violation(&mut self, symbol: usize, now_ms: u64) -> (q: bool)
        requires
            old(self).wf(),
            symbol < old(self).window_start@.len(),
        ensures
            final(self).wf(),
            final(self).max_events == old(self).max_events,
            final(self).window_ms == old(self).window_ms,
            ({
                let fresh = opens_window(old(self).window_start@[symbol as int], now_ms, old(self).window_ms);
                let c = if fresh { 1 } else { sat_add(old(self).count@[symbol as int], 1) };
                let qq = old(self).quarantined@[symbol as int] || c > old(self).max_events;
                &&& final(self).window_start@ == (if fresh {
                    old(self).window_start@.update(symbol as int, now_ms)
                } else {
                    old(self).window_start@
                })
                &&& final(self).count@ == old(self).count@.update(symbol as int, c)
                &&& final(self).quarantined@ == old(self).quarantined@.update(symbol as int, qq)
                &&& q == qq
            }),
    {
        let start = self.window_start[symbol];
        let c: u64 = if now_ms >= start && now_ms - start >= self.window_ms {
            self.window_start.set(symbol, now_ms);
            1
        } else {
            saturating_add(self.count[symbol], 1)
        };
        self.count.set(symbol, c);
        let q = self.quarantined[symbol] || c > self.max_events;
        self.quarantined.set(symbol, q);
        q
    }
}

} // verus!
