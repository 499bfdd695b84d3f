//! Admission of detected chances and reconciliation of in-flight orders.
use vstd::prelude::*;
use crate::detector::{ChanceEvent, Leg};

verus! {

/// State of one leg as reported by the exchange.
#[derive(Debug, Clone, Copy, PartialEq, Eq, Structural)]
pub enum LegState {
    Open,
    Match,
    Done,
    Canceled,
}

/// Whether a leg state is final.
pub open spec fn is_terminal(s: LegState) -> bool {
    s == LegState::Done || s == LegState::Canceled
}

/// A committed three-leg order.
#[derive(Debug, Clone, Copy)]
pub struct OrderEvent {
    pub correlation: u128,
    pub cycle: usize,
    pub leg0: Leg,
    pub leg1: Leg,
    pub leg2: Leg,
    pub notional: u64,
    pub committed_at_ms: u64,
}

/// An exchange update on one leg of a committed order.
#[derive(Debug, Clone, Copy)]
pub struct OrderChangeEvent {
    pub correlation: u128,
    pub leg: usize,
    pub state: LegState,
    pub filled: u64,
    pub remaining: u64,
}

/// Why a chance was not admitted.
#[derive(Debug, Clone, Copy, PartialEq, Eq, Structural)]
pub enum Rejection {
    /// The cycle already has an order in flight.
    InFlight,
    /// The correlation id is already in use by an order in flight.
    DuplicateCorrelation,
    /// The cycle is cooling down.
    CoolingDown,
    /// The notional would take the in-flight total past the budget.
    OverBudget,
    /// The chance is older than the freshness window.
    Stale,
    /// The private order feed is down; nothing is admitted until the
    /// in-flight set has been resynchronised.
    Quiesced,
}

/// Settings of the gatekeeper, in notional ticks and milliseconds.
#[derive(Debug, Clone, Copy)]
pub struct GatekeeperConfig {
    pub budget: u64,
    pub freshness_ms: u64,
    pub cooldown_ms: u64,
    pub timeout_ms: u64,
}

/// An order in flight and which of its legs have reached a final state.
#[derive(Debug, Clone, Copy)]
pub struct InFlight {
    pub correlation: u128,
    pub cycle: usize,
    pub notional: u64,
    pub since_ms: u64,
    pub done: (bool, bool, bool),
}

/// Counts of the gatekeeper's decisions.
#[derive(Debug, Clone, Copy)]
pub struct GateCounters {
    pub admitted: u64,
    pub rejected: u64,
    pub stale_chance: u64,
    pub forced_eviction: u64,
}

/// `a + b`, held at `u64::MAX`.
pub open spec fn sat_add(a: u64, b: u64) -> u64 {
    if a + b > u64::MAX { u64::MAX } else { (a + b) as u64 }
}

/// `a + b`, held at `u64::MAX`.
pub fn saturating_add(a: u64, b: u64) -> (r: u64)
    ensures
        r == sat_add(a, b),
{
    if a > u64::MAX - b {
        u64::MAX
    } else {
        a + b
    }
}

/// Total notional of the orders in `s`.
pub open spec fn total_notional(s: Seq<InFlight>) -> int
    decreases s.len(),
{
    if s.len() == 0 {
        0
    } else {
        total_notional(s.drop_last()) + s.last().notional
    }
}

/// Removing one order takes its notional off the total.
pub proof fn lemma_total_remove(s: Seq<InFlight>, i: int)
    requires
        0 <= i < s.len(),
    ensures
        total_notional(s.remove(i)) == total_notional(s) - s[i].notional,
    decreases s.len(),
{
    if i < s.len() - 1 {
        lemma_total_remove(s.drop_last(), i);
        assert(s.remove(i).drop_last() =~= s.drop_last().remove(i));
    } else {
        assert(s.remove(i) =~= s.drop_last());
    }
}

/// The total of orders each of nonnegative notional is nonnegative.
pub proof fn lemma_total_nonneg(s: Seq<InFlight>)
    ensures
        total_notional(s) >= 0,
    decreases s.len(),
{
    if s.len() > 0 {
        lemma_total_nonneg(s.drop_last());
    }
}

/// Whether some order of `s` carries correlation id `c`.
pub open spec fn has_correlation(s: Seq<InFlight>, c: u128) -> bool {
    exists|i: int| 0 <= i < s.len() && (#[trigger] s[i]).correlation == c
}

/// Whether some order of `s` is on cycle `cy`.
pub open spec fn has_cycle(s: Seq<InFlight>, cy: usize) -> bool {
    exists|i: int| 0 <= i < s.len() && (#[trigger] s[i]).cycle == cy
}

/// Whether a chance detected at `detected` is stale at `now`.
pub open spec fn is_stale(detected: u64, now: u64, window: u64) -> bool {
    now > detected && now - detected > window
}

/// The decision on a chance: the first admission rule it breaks, if any.
pub open spec fn admission(
    cfg: GatekeeperConfig,
    quiesced: bool,
    in_flight: Seq<InFlight>,
    cooldown_until: Seq<u64>,
    used: u64,
    ev: ChanceEvent,
    correlation: u128,
    now: u64,
) -> Option<Rejection> {
    if quiesced {
        Some(Rejection::Quiesced)
    } else if has_cycle(in_flight, ev.cycle) {
        Some(Rejection::InFlight)
    } else if has_correlation(in_flight, correlation) {
        Some(Rejection::DuplicateCorrelation)
    } else if now < cooldown_until[ev.cycle as int] {
        Some(Rejection::CoolingDown)
    } else if used + ev.notional > cfg.budget {
        Some(Rejection::OverBudget)
    } else if is_stale(ev.detected_at_ms, now, cfg.freshness_ms) {
        Some(Rejection::Stale)
    } else {
        None
    }
}

/// The leg flags after a state report on leg `leg`.
pub open spec fn mark_leg(done: (bool, bool, bool), leg: usize, s: LegState) -> (bool, bool, bool) {
    if !is_terminal(s) {
        done
    } else if leg == 0 {
        (true, done.1, done.2)
    } else if leg == 1 {
        (done.0, true, done.2)
    } else {
        (done.0, done.1, true)
    }
}

pub open spec fn all_done(d: (bool, bool, bool)) -> bool {
    d.0 && d.1 && d.2
}

/// Whether an order committed at `since` has outlived the timeout at `now`.
pub open spec fn expired(since: u64, now: u64, timeout: u64) -> bool {
    now >= since && now - since >= timeout
}

/// `x + 1`, held at `u64::MAX`.
pub open spec fn bump(x: u64) -> u64 {
    sat_add(x, 1)
}

/// Arbitration between detected chances and the dispatcher.
#[derive(Debug)]
pub struct Gatekeeper {
    pub config: GatekeeperConfig,
    pub in_flight: Vec<InFlight>,
    pub cooldown_until: Vec<u64>,
    pub used: u64,
    pub counters: GateCounters,
    pub quiesced: bool,
}

impl Gatekeeper {
    /// The in-flight notional is the sum over the orders in flight and stays
    /// within the budget; no two orders in flight share a cycle or a
    /// correlation id.
    pub open spec fn wf(&self) -> bool {
        &&& self.used == total_notional(self.in_flight@)
        &&& self.used <= self.config.budget
        &&& forall|i: int, j: int|
            0 <= i < j < self.in_flight@.len() ==> (#[trigger] self.in_flight@[i]).cycle
                != (#[trigger] self.in_flight@[j]).cycle && self.in_flight@[i].correlation
                != self.in_flight@[j].correlation
        &&& forall|i: int|
            0 <= i < self.in_flight@.len() ==> (#[trigger] self.in_flight@[i]).cycle
                < self.cooldown_until@.len()
    }

    /// A gatekeeper for `n_cycles` cycles, with nothing in flight.
    pub fn new(config: GatekeeperConfig, n_cycles: usize) -> (r: Gatekeeper)
        ensures
            r.wf(),
            r.config == config,
            r.in_flight@.len() == 0,
            r.used == 0,
            r.cooldown_until@ == Seq::new(n_cycles as nat, |i: int| 0u64),
            r.counters == (GateCounters { admitted: 0, rejected: 0, stale_chance: 0, forced_eviction: 0 }),
            !r.quiesced,
    {
        let mut cd: Vec<u64> = Vec::new();
        let mut i: usize = 0;
        while i < n_cycles
            invariant
                i <= n_cycles,
                cd@ == Seq::new(i as nat, |k: int| 0u64),
            decreases n_cycles - i,
        {
            cd.push(0);
            i = i + 1;
            assert(cd@ =~= Seq::new(i as nat, |k: int| 0u64));
        }
        Gatekeeper {
            config,
            in_flight: Vec::new(),
            cooldown_until: cd,
            used: 0,
            counters: GateCounters { admitted: 0, rejected: 0, stale_chance: 0, forced_eviction: 0 },
            quiesced: false,
        }
    }

    fn find_cycle(&self, cy: usize) -> (r: bool)
        ensures
            r == has_cycle(self.in_flight@, cy),
    {
        let mut i: usize = 0;
        while i < self.in_flight.len()
            invariant
                i <= self.in_flight@.len(),
                forall|k: int| 0 <= k < i ==> (#[trigger] self.in_flight@[k]).cycle != cy,
            decreases self.in_flight@.len() - i,
        {
            if self.in_flight[i].cycle == cy {
                return true;
            }
            i = i + 1;
        }
        false
    }

    fn find_correlation(&self, c: u128) -> (r: usize)
        ensures
            r <= self.in_flight@.len(),
            r < self.in_flight@.len() ==> self.in_flight@[r as int].correlation == c,
            r == self.in_flight@.len() <==> !has_correlation(self.in_flight@, c),
    {
        let mut i: usize = 0;
        while i < self.in_flight.len()
            invariant
                i <= self.in_flight@.len(),
                forall|k: int| 0 <= k < i ==> (#[trigger] self.in_flight@[k]).correlation != c,
            decreases self.in_flight@.len() - i,
        {
            if self.in_flight[i].correlation == c {
                return i;
            }
            i = i + 1;
        }
        i
    }

    /// Decides on a chance. Admitted, it is put in flight under
    /// `correlation`, its notional is added to the in-flight total and an
    /// order is returned; rejected, nothing but the counters changes.
    pub fn consider(&mut self, ev: &ChanceEvent, correlation: u128, now_ms: u64) -> (r: Result<OrderEvent, Rejection>)
        requires
            old(self).wf(),
            ev.cycle < old(self).cooldown_until@.len(),
        ensures
            final(self).wf(),
            final(self).config == old(self).config,
            final(self).cooldown_until@ == old(self).cooldown_until@,
            final(self).quiesced == old(self).quiesced,
            match admission(
                old(self).config,
                old(self).quiesced,
                old(self).in_flight@,
                old(self).cooldown_until@,
                old(self).used,
                *ev,
                correlation,
                now_ms,
            ) {
                Some(rej) => {
                    &&& r == Err::<OrderEvent, Rejection>(rej)
                    &&& final(self).in_flight@ == old(self).in_flight@
                    &&& final(self).used == old(self).used
                    &&& final(self).counters.rejected == bump(old(self).counters.rejected)
                    &&& final(self).counters.stale_chance == if rej == Rejection::Stale {
                        bump(old(self).counters.stale_chance)
                    } else {
                        old(self).counters.stale_chance
                    }
                    &&& final(self).counters.admitted == old(self).counters.admitted
                    &&& final(self).counters.forced_eviction == old(self).counters.forced_eviction
                },
                None => {
                    &&& r == Ok::<OrderEvent, Rejection>(
                        OrderEvent {
                            correlation,
                            cycle: ev.cycle,
                            leg0: ev.leg0,
                            leg1: ev.leg1,
                            leg2: ev.leg2,
                            notional: ev.notional,
                            committed_at_ms: now_ms,
                        },
                    )
                    &&& final(self).in_flight@ == old(self).in_flight@.push(
                        InFlight {
                            correlation,
                            cycle: ev.cycle,
                            notional: ev.notional,
                            since_ms: now_ms,
                            done: (false, false, false),
                        },
                    )
                    &&& final(self).used == old(self).used + ev.notional
                    &&& final(self).counters.admitted == bump(old(self).counters.admitted)
                    &&& final(self).counters.rejected == old(self).counters.rejected
                    &&& final(self).counters.stale_chance == old(self).counters.stale_chance
                    &&& final(self).counters.forced_eviction == old(self).counters.forced_eviction
                },
            },
    {
        let rejection = if self.quiesced {
            Some(Rejection::Quiesced)
        } else if self.find_cycle(ev.cycle) {
            Some(Rejection::InFlight)
        } else if self.find_correlation(correlation) < self.in_flight.len() {
            Some(Rejection::DuplicateCorrelation)
        } else if now_ms < self.cooldown_until[ev.cycle] {
            Some(Rejection::CoolingDown)
        } else if ev.notional > self.config.budget - self.used {
            Some(Rejection::OverBudget)
        } else if now_ms > ev.detected_at_ms && now_ms - ev.detected_at_ms > self.config.freshness_ms {
            Some(Rejection::Stale)
        } else {
            None
        };
        match rejection {
            Some(rej) => {
                self.counters.rejected = saturating_add(self.counters.rejected, 1);
                if rej == Rejection::Stale {
                    self.counters.stale_chance = saturating_add(self.counters.stale_chance, 1);
                }
                Err(rej)
            },
            None => {
                let entry = InFlight {
                    correlation,
                    cycle: ev.cycle,
                    notional: ev.notional,
                    since_ms: now_ms,
                    done: (false, false, false),
                };
                let ghost s = self.in_flight@;
                self.in_flight.push(entry);
                self.used = self.used + ev.notional;
                proof {
                    assert(self.in_flight@.drop_last() =~= s);
                }
                self.counters.admitted = saturating_add(self.counters.admitted, 1);
                Ok(
                    OrderEvent {
                        correlation,
                        cycle: ev.cycle,
                        leg0: ev.leg0,
                        leg1: ev.leg1,
                        leg2: ev.leg2,
                        notional: ev.notional,
                        committed_at_ms: now_ms,
                    },
                )
            },
        }
    }
    /// Records a leg update. When it completes the last open leg of an
    /// order in flight, the order leaves the in-flight set, its notional
    /// is released and its cycle cools down; returns whether that happened.
    /// Updates for unknown orders or legs change nothing.
    pub fn on_order_change(&mut self, ch: &OrderChangeEvent, now_ms: u64) -> (released: bool)
        requires
            old(self).wf(),
        ensures
            final(self).wf(),
            final(self).config == old(self).config,
            final(self).counters == old(self).counters,
            final(self).quiesced == old(self).quiesced,
            !has_correlation(old(self).in_flight@, ch.correlation) || ch.leg >= 3 ==> {
                &&& !released
                &&& final(self).in_flight@ == old(self).in_flight@
                &&& final(self).used == old(self).used
                &&& final(self).cooldown_until@ == old(self).cooldown_until@
            },
            has_correlation(old(self).in_flight@, ch.correlation) && ch.leg < 3 ==> exists|i: int|
                0 <= i < old(self).in_flight@.len() && (#[trigger] old(self).in_flight@[i]).correlation
                    == ch.correlation && {
                    let e = old(self).in_flight@[i];
                    let d = mark_leg(e.done, ch.leg, ch.state);
                    if all_done(d) {
                        &&& released
                        &&& final(self).in_flight@ == old(self).in_flight@.remove(i)
                        &&& final(self).used == old(self).used - e.notional
                        &&& final(self).cooldown_until@ == old(self).cooldown_until@.update(
                            e.cycle as int,
                            sat_add(now_ms, old(self).config.cooldown_ms),
                        )
                    } else {
                        &&& !released
                        &&& final(self).in_flight@ == old(self).in_flight@.update(
                            i,
                            InFlight { done: d, ..e },
                        )
                        &&& final(self).used == old(self).used
                        &&& final(self).cooldown_until@ == old(self).cooldown_until@
                    }
                },
    {
        let i = self.find_correlation(ch.correlation);
        if i == self.in_flight.len() || ch.leg >= 3 {
            return false;
        }
        let e = self.in_flight[i];
        let terminal = match ch.state {
            LegState::Done => true,
            LegState::Canceled => true,
            _ => false,
        };
        let d = if !terminal {
            e.done
        } else if ch.leg == 0 {
            (true, e.done.1, e.done.2)
        } else if ch.leg == 1 {
            (e.done.0, true, e.done.2)
        } else {
            (e.done.0, e.done.1, true)
        };
        let ghost s = self.in_flight@;
        if d.0 && d.1 && d.2 {
            self.in_flight.remove(i);
            proof {
                lemma_total_remove(s, i as int);
                lemma_total_nonneg(self.in_flight@);
            }
            self.used = self.used - e.notional;
            let until = saturating_add(now_ms, self.config.cooldown_ms);
            self.cooldown_until.set(e.cycle, until);
            proof {
                assert(self.in_flight@ == s.remove(i as int));
                assert forall|a: int, b: int| 0 <= a < b < self.in_flight@.len() implies
                    (#[trigger] self.in_flight@[a]).cycle != (#[trigger] self.in_flight@[b]).cycle
                    && self.in_flight@[a].correlation != self.in_flight@[b].correlation by {
                    let a0 = if a < i { a } else { a + 1 };
                    let b0 = if b < i { b } else { b + 1 };
                    assert(self.in_flight@[a] == s[a0]);
                    assert(self.in_flight@[b] == s[b0]);
                }
                assert forall|a: int| 0 <= a < self.in_flight@.len() implies
                    (#[trigger] self.in_flight@[a]).cycle < self.cooldown_until@.len() by {
                    let a0 = if a < i { a } else { a + 1 };
                    assert(self.in_flight@[a] == s[a0]);
                }
            }
            true
        } else {
            self.in_flight.set(i, InFlight { done: d, ..e });
            proof {
                assert(self.in_flight@ == s.update(i as int, InFlight { done: d, ..e }));
                assert(total_notional(self.in_flight@) == total_notional(s)) by {
                    lemma_total_remove(s, i as int);
                    lemma_total_remove(self.in_flight@, i as int);
                    assert(self.in_flight@.remove(i as int) =~= s.remove(i as int));
                }
            }
            false
        }
    }

    /// Forces out every order in flight whose timeout has run out at
    /// `now_ms`: its notional is released, its cycle cools down for ten
    /// times the usual period, and the eviction is counted. Returns how
    /// many orders were evicted.
    pub fn on_tick(&mut self, now_ms: u64) -> (evicted: usize)
        requires
            old(self).wf(),
        ensures
            final(self).wf(),
            final(self).config == old(self).config,
            evicted == old(self).in_flight@.len() - final(self).in_flight@.len(),
            forall|k: int| 0 <= k < final(self).in_flight@.len() ==> old(self).in_flight@.contains(
                #[trigger] final(self).in_flight@[k],
            ) && !expired(final(self).in_flight@[k].since_ms, now_ms, old(self).config.timeout_ms),
            forall|k: int|
                0 <= k < old(self).in_flight@.len() && !expired(
                    (#[trigger] old(self).in_flight@[k]).since_ms,
                    now_ms,
                    old(self).config.timeout_ms,
                ) ==> final(self).in_flight@.contains(old(self).in_flight@[k]),
            forall|k: int|
                0 <= k < old(self).in_flight@.len() && expired(
                    (#[trigger] old(self).in_flight@[k]).since_ms,
                    now_ms,
                    old(self).config.timeout_ms,
                ) ==> final(self).cooldown_until@[old(self).in_flight@[k].cycle as int] == sat_add(
                    now_ms,
                    sat_mul10(old(self).config.cooldown_ms),
                ),
            final(self).counters.forced_eviction == sat_add(
                old(self).counters.forced_eviction,
                evicted as u64,
            ),
            final(self).counters.admitted == old(self).counters.admitted,
            final(self).counters.rejected == old(self).counters.rejected,
            final(self).counters.stale_chance == old(self).counters.stale_chance,
            final(self).quiesced == old(self).quiesced,
            final(self).cooldown_until@.len() == old(self).cooldown_until@.len(),
            forall|c: int|
                0 <= c < old(self).cooldown_until@.len() && (#[trigger] final(self).cooldown_until@[c])
                    != old(self).cooldown_until@[c] ==> exists|k: int|
                    0 <= k < old(self).in_flight@.len() && (#[trigger] old(self).in_flight@[k]).cycle
                        == c && expired(
                        old(self).in_flight@[k].since_ms,
                        now_ms,
                        old(self).config.timeout_ms,
                    ),
    {
        let ghost s0 = self.in_flight@;
        let ghost cd0 = self.cooldown_until@;
        let ghost f0 = self.counters.forced_eviction;
        let timeout = self.config.timeout_ms;
        let long: u64 = if self.config.cooldown_ms > u64::MAX / 10 {
            u64::MAX
        } else {
            10 * self.config.cooldown_ms
        };
        let until = saturating_add(now_ms, long);
        let n_before: usize = self.in_flight.len();
        proof {
            assert(n_before == s0.len());
            assert(s0.subrange(0, s0.len() as int) =~= s0);
            assert forall|k: int| 0 <= k < s0.len() implies s0.contains(#[trigger] s0[k]) by {}
        }
        let mut i: usize = 0;
        let mut n: usize = 0;
        while i < self.in_flight.len()
            invariant
                self.wf(),
                self.config == old(self).config,
                timeout == self.config.timeout_ms,
                until == sat_add(now_ms, sat_mul10(self.config.cooldown_ms)),
                s0 == old(self).in_flight@,
                f0 == old(self).counters.forced_eviction,
                i <= self.in_flight@.len(),
                n == s0.len() - self.in_flight@.len(),
                n <= s0.len(),
                s0.len() <= usize::MAX,
                self.cooldown_until@.len() == cd0.len(),
                forall|k: int| 0 <= k < s0.len() ==> (#[trigger] s0[k]).cycle < cd0.len(),
                self.counters.forced_eviction == sat_add(f0, n as u64),
                self.counters.admitted == old(self).counters.admitted,
                self.counters.rejected == old(self).counters.rejected,
                self.counters.stale_chance == old(self).counters.stale_chance,
                self.quiesced == old(self).quiesced,
                cd0 == old(self).cooldown_until@,
                forall|c: int|
                    0 <= c < cd0.len() && (#[trigger] self.cooldown_until@[c]) != cd0[c]
                        ==> exists|k: int|
                        0 <= k < s0.len() && (#[trigger] s0[k]).cycle == c && expired(
                            s0[k].since_ms,
                            now_ms,
                            timeout,
                        ),
                forall|k: int| 0 <= k < self.in_flight@.len() ==> s0.contains(
                    #[trigger] self.in_flight@[k],
                ),
                forall|k: int| 0 <= k < i ==> !expired(
                    (#[trigger] self.in_flight@[k]).since_ms,
                    now_ms,
                    timeout,
                ),
                forall|k: int|
                    0 <= k < s0.len() && !expired((#[trigger] s0[k]).since_ms, now_ms, timeout)
                        ==> self.in_flight@.contains(s0[k]),
                forall|k: int|
                    0 <= k < s0.len() && expired((#[trigger] s0[k]).since_ms, now_ms, timeout)
                        ==> self.cooldown_until@[s0[k].cycle as int] == until
                        || self.in_flight@.subrange(i as int, self.in_flight@.len() as int).contains(s0[k]),
            decreases self.in_flight@.len() - i,
        {
            let e = self.in_flight[i];
            if now_ms >= e.since_ms && now_ms - e.since_ms >= timeout {
                let ghost s = self.in_flight@;
                let ghost cd = self.cooldown_until@;
                n = n + 1;
                self.in_flight.remove(i);
                proof {
                    lemma_total_remove(s, i as int);
                    lemma_total_nonneg(self.in_flight@);
                }
                self.used = self.used - e.notional;
                proof {
                    assert(s.contains(e));
                }
                let ghost cd_before = self.cooldown_until@;
                self.cooldown_until.set(e.cycle, until);
                proof {
                    assert(s0.contains(e));
                    let ke = choose|ke: int| 0 <= ke < s0.len() && s0[ke] == e;
                    assert forall|c: int|
                        0 <= c < cd0.len() && (#[trigger] self.cooldown_until@[c]) != cd0[c]
                        implies exists|k: int|
                            0 <= k < s0.len() && (#[trigger] s0[k]).cycle == c && expired(
                                s0[k].since_ms, now_ms, timeout) by {
                        if c == e.cycle as int {
                            assert(s0[ke].cycle == c);
                        } else {
                            assert(cd_before[c] != cd0[c]);
                        }
                    }
                }
                self.counters.forced_eviction = saturating_add(self.counters.forced_eviction, 1);
                proof {
                    let t = self.in_flight@;
                    assert(t == s.remove(i as int));
                    assert forall|a: int, b: int| 0 <= a < b < t.len() implies
                        (#[trigger] t[a]).cycle != (#[trigger] t[b]).cycle
                        && t[a].correlation != t[b].correlation by {
                        let a0 = if a < i { a } else { a + 1 };
                        let b0 = if b < i { b } else { b + 1 };
                        assert(t[a] == s[a0]);
                        assert(t[b] == s[b0]);
                    }
                    assert forall|a: int| 0 <= a < t.len() implies
                        (#[trigger] t[a]).cycle < self.cooldown_until@.len() by {
                        let a0 = if a < i { a } else { a + 1 };
                        assert(t[a] == s[a0]);
                    }
                    assert forall|k: int| 0 <= k < t.len() implies s0.contains(#[trigger] t[k]) by {
                        let k0 = if k < i { k } else { k + 1 };
                        assert(t[k] == s[k0]);
                    }
                    assert forall|k: int| 0 <= k < i implies !expired(
                        (#[trigger] t[k]).since_ms, now_ms, timeout) by {
                        assert(t[k] == s[k]);
                    }
                    assert forall|k: int|
                        0 <= k < s0.len() && !expired((#[trigger] s0[k]).since_ms, now_ms, timeout)
                        implies t.contains(s0[k]) by {
                        let j = choose|j: int| 0 <= j < s.len() && s[j] == s0[k];
                        if j < i {
                            assert(t[j] == s0[k]);
                        } else {
                            assert(j != i);
                            assert(t[j - 1] == s0[k]);
                        }
                    }
                    assert forall|k: int|
                        0 <= k < s0.len() && expired((#[trigger] s0[k]).since_ms, now_ms, timeout)
                        implies self.cooldown_until@[s0[k].cycle as int] == until
                        || t.subrange(i as int, t.len() as int).contains(s0[k]) by {
                        if cd[s0[k].cycle as int] == until {
                        } else if s0[k] == e {
                        } else {
                            let r = s.subrange(i as int, s.len() as int);
                            let j = choose|j: int| 0 <= j < r.len() && r[j] == s0[k];
                            assert(j != 0);
                            assert(t.subrange(i as int, t.len() as int)[j - 1] == s0[k]);
                        }
                    }
                }
            } else {
                proof {
                    let s = self.in_flight@;
                    assert forall|k: int|
                        0 <= k < s0.len() && expired((#[trigger] s0[k]).since_ms, now_ms, timeout)
                        implies self.cooldown_until@[s0[k].cycle as int] == until
                        || s.subrange(i + 1, s.len() as int).contains(s0[k]) by {
                        if self.cooldown_until@[s0[k].cycle as int] != until {
                            let r = s.subrange(i as int, s.len() as int);
                            let j = choose|j: int| 0 <= j < r.len() && r[j] == s0[k];
                            assert(j != 0);
                            assert(s.subrange(i + 1, s.len() as int)[j - 1] == s0[k]);
                        }
                    }
                }
                i = i + 1;
            }
        }
        proof {
            let t = self.in_flight@;
            assert(t.subrange(i as int, t.len() as int).len() == 0);
        }
        n
    }

    /// Stops admitting chances until the in-flight set is resynchronised,
    /// as when the private order feed is lost.
    pub fn quiesce(&mut self)
        requires
            old(self).wf(),
        ensures
            final(self).wf(),
            final(self).quiesced,
            final(self).config == old(self).config,
            final(self).in_flight@ == old(self).in_flight@,
            final(self).cooldown_until@ == old(self).cooldown_until@,
            final(self).used == old(self).used,
            final(self).counters == old(self).counters,
    {
        self.quiesced = true;
    }

    /// Resynchronises the in-flight set with the correlation ids that the
    /// exchange reports as still open: every other order in flight is
    /// released as if all its legs had ended, and its cycle cools down.
    /// Admission resumes. Returns how many orders were released.
    pub fn resync(&mut self, open: &Vec<u128>, now_ms: u64) -> (evicted: usize)
        requires
            old(self).wf(),
        ensures
            final(self).wf(),
            final(self).config == old(self).config,
            evicted == old(self).in_flight@.len() - final(self).in_flight@.len(),
            forall|k: int| 0 <= k < final(self).in_flight@.len() ==> old(self).in_flight@.contains(
                #[trigger] final(self).in_flight@[k],
            ) && !gone(final(self).in_flight@[k], open@),
            forall|k: int|
                0 <= k < old(self).in_flight@.len() && !gone((#[trigger] old(self).in_flight@[k]), open@) ==> final(self).in_flight@.contains(old(self).in_flight@[k]),
            forall|k: int|
                0 <= k < old(self).in_flight@.len() && gone((#[trigger] old(self).in_flight@[k]), open@) ==> final(self).cooldown_until@[old(self).in_flight@[k].cycle as int] == sat_add(
                    now_ms,
                    old(self).config.cooldown_ms,
                ),
            final(self).counters == old(self).counters,
            !final(self).quiesced,
            final(self).cooldown_until@.len() == old(self).cooldown_until@.len(),
            forall|c: int|
                0 <= c < old(self).cooldown_until@.len() && (#[trigger] final(self).cooldown_until@[c])
                    != old(self).cooldown_until@[c] ==> exists|k: int|
                    0 <= k < old(self).in_flight@.len() && (#[trigger] old(self).in_flight@[k]).cycle
                        == c && gone(old(self).in_flight@[k], open@),
    {
        let ghost s0 = self.in_flight@;
        let ghost cd0 = self.cooldown_until@;
        let until = saturating_add(now_ms, self.config.cooldown_ms);
        let n_before: usize = self.in_flight.len();
        proof {
            assert(n_before == s0.len());
            assert(s0.subrange(0, s0.len() as int) =~= s0);
            assert forall|k: int| 0 <= k < s0.len() implies s0.contains(#[trigger] s0[k]) by {}
        }
        let mut i: usize = 0;
        let mut n: usize = 0;
        while i < self.in_flight.len()
            invariant
                self.wf(),
                self.config == old(self).config,
                until == sat_add(now_ms, self.config.cooldown_ms),
                s0 == old(self).in_flight@,
                i <= self.in_flight@.len(),
                n == s0.len() - self.in_flight@.len(),
                n <= s0.len(),
                s0.len() <= usize::MAX,
                self.cooldown_until@.len() == cd0.len(),
                forall|k: int| 0 <= k < s0.len() ==> (#[trigger] s0[k]).cycle < cd0.len(),
                self.counters == old(self).counters,
                self.quiesced == old(self).quiesced,
                cd0 == old(self).cooldown_until@,
                forall|c: int|
                    0 <= c < cd0.len() && (#[trigger] self.cooldown_until@[c]) != cd0[c]
                        ==> exists|k: int|
                        0 <= k < s0.len() && (#[trigger] s0[k]).cycle == c && gone(s0[k], open@),
                forall|k: int| 0 <= k < self.in_flight@.len() ==> s0.contains(
                    #[trigger] self.in_flight@[k],
                ),
                forall|k: int| 0 <= k < i ==> !gone((#[trigger] self.in_flight@[k]), open@),
                forall|k: int|
                    0 <= k < s0.len() && !gone((#[trigger] s0[k]), open@)
                        ==> self.in_flight@.contains(s0[k]),
                forall|k: int|
                    0 <= k < s0.len() && gone((#[trigger] s0[k]), open@)
                        ==> self.cooldown_until@[s0[k].cycle as int] == until
                        || self.in_flight@.subrange(i as int, self.in_flight@.len() as int).contains(s0[k]),
            decreases self.in_flight@.len() - i,
        {
            let e = self.in_flight[i];
            if !listed(open, e.correlation) {
                let ghost s = self.in_flight@;
                let ghost cd = self.cooldown_until@;
                n = n + 1;
                self.in_flight.remove(i);
                proof {
                    lemma_total_remove(s, i as int);
                    lemma_total_nonneg(self.in_flight@);
                }
                self.used = self.used - e.notional;
                proof {
                    assert(s.contains(e));
                }
                let ghost cd_before = self.cooldown_until@;
                self.cooldown_until.set(e.cycle, until);
                proof {
                    assert(s0.contains(e));
                    let ke = choose|ke: int| 0 <= ke < s0.len() && s0[ke] == e;
                    assert forall|c: int|
                        0 <= c < cd0.len() && (#[trigger] self.cooldown_until@[c]) != cd0[c]
                        implies exists|k: int|
                            0 <= k < s0.len() && (#[trigger] s0[k]).cycle == c && gone(s0[k], open@) by {
                        if c == e.cycle as int {
                            assert(s0[ke].cycle == c);
                        } else {
                            assert(cd_before[c] != cd0[c]);
                        }
                    }
                }
                proof {
                    let t = self.in_flight@;
                    assert(t == s.remove(i as int));
                    assert forall|a: int, b: int| 0 <= a < b < t.len() implies
                        (#[trigger] t[a]).cycle != (#[trigger] t[b]).cycle
                        && t[a].correlation != t[b].correlation by {
                        let a0 = if a < i { a } else { a + 1 };
                        let b0 = if b < i { b } else { b + 1 };
                        assert(t[a] == s[a0]);
                        assert(t[b] == s[b0]);
                    }
                    assert forall|a: int| 0 <= a < t.len() implies
                        (#[trigger] t[a]).cycle < self.cooldown_until@.len() by {
                        let a0 = if a < i { a } else { a + 1 };
                        assert(t[a] == s[a0]);
                    }
                    assert forall|k: int| 0 <= k < t.len() implies s0.contains(#[trigger] t[k]) by {
                        let k0 = if k < i { k } else { k + 1 };
                        assert(t[k] == s[k0]);
                    }
                    assert forall|k: int| 0 <= k < i implies !gone((#[trigger] t[k]), open@) by {
                        assert(t[k] == s[k]);
                    }
                    assert forall|k: int|
                        0 <= k < s0.len() && !gone((#[trigger] s0[k]), open@)
                        implies t.contains(s0[k]) by {
                        let j = choose|j: int| 0 <= j < s.len() && s[j] == s0[k];
                        if j < i {
                            assert(t[j] == s0[k]);
                        } else {
                            assert(j != i);
                            assert(t[j - 1] == s0[k]);
                        }
                    }
                    assert forall|k: int|
                        0 <= k < s0.len() && gone((#[trigger] s0[k]), open@)
                        implies self.cooldown_until@[s0[k].cycle as int] == until
                        || t.subrange(i as int, t.len() as int).contains(s0[k]) by {
                        if cd[s0[k].cycle as int] == until {
                        } else if s0[k] == e {
                        } else {
                            let r = s.subrange(i as int, s.len() as int);
                            let j = choose|j: int| 0 <= j < r.len() && r[j] == s0[k];
                            assert(j != 0);
                            assert(t.subrange(i as int, t.len() as int)[j - 1] == s0[k]);
                        }
                    }
                }
            } else {
                proof {
                    let s = self.in_flight@;
                    assert forall|k: int|
                        0 <= k < s0.len() && gone((#[trigger] s0[k]), open@)
                        implies self.cooldown_until@[s0[k].cycle as int] == until
                        || s.subrange(i + 1, s.len() as int).contains(s0[k]) by {
                        if self.cooldown_until@[s0[k].cycle as int] != until {
                            let r = s.subrange(i as int, s.len() as int);
                            let j = choose|j: int| 0 <= j < r.len() && r[j] == s0[k];
                            assert(j != 0);
                            assert(s.subrange(i + 1, s.len() as int)[j - 1] == s0[k]);
                        }
                    }
                }
                i = i + 1;
            }
        }
        proof {
            let t = self.in_flight@;
            assert(t.subrange(i as int, t.len() as int).len() == 0);
        }
        self.quiesced = false;
        n
    }
}

/// Whether order `e` is missing from the ids reported open.
pub open spec fn gone(e: InFlight, open: Seq<u128>) -> bool {
    !open.contains(e.correlation)
}

/// Whether `c` is among `open`.
fn listed(open: &Vec<u128>, c: u128) -> (r: bool)
    ensures
        r == open@.contains(c),
{
    let mut i: usize = 0;
    while i < open.len()
        invariant
            i <= open@.len(),
            forall|k: int| 0 <= k < i ==> open@[k] != c,
        decreases open@.len() - i,
    {
        if open[i] == c {
            return true;
        }
        i = i + 1;
    }
    false
}

/// `10 * x`, held at `u64::MAX`.
pub open spec fn sat_mul10(x: u64) -> u64 {
    if 10 * x > u64::MAX { u64::MAX } else { (10 * x) as u64 }
}

/// The notional of the orders in flight never exceeds the budget.
pub proof fn lemma_in_flight_within_budget(g: Gatekeeper)
    requires
        g.wf(),
    ensures
        total_notional(g.in_flight@) <= g.config.budget,
{
}

/// At most one order is in flight under any correlation id.
pub proof fn lemma_one_order_per_correlation(g: Gatekeeper, c: u128, i: int, j: int)
    requires
        g.wf(),
        0 <= i < g.in_flight@.len(),
        0 <= j < g.in_flight@.len(),
        g.in_flight@[i].correlation == c,
        g.in_flight@[j].correlation == c,
    ensures
        i == j,
{
    if i < j {
        assert(g.in_flight@[i].correlation != g.in_flight@[j].correlation);
    } else if j < i {
        assert(g.in_flight@[j].correlation != g.in_flight@[i].correlation);
    }
}

/// A chance older than the freshness window is never admitted.
pub proof fn lemma_stale_chance_rejected(
    cfg: GatekeeperConfig,
    quiesced: bool,
    in_flight: Seq<InFlight>,
    cooldown_until: Seq<u64>,
    used: u64,
    ev: ChanceEvent,
    correlation: u128,
    now: u64,
)
    requires
        is_stale(ev.detected_at_ms, now, cfg.freshness_ms),
    ensures
        admission(cfg, quiesced, in_flight, cooldown_until, used, ev, correlation, now) is Some,
{
}

/// Two chances on different cycles arrive together, neither cycle in
/// flight nor cooling down, both fresh, under distinct unused correlation
/// ids. The first is admitted when its notional fits the budget; the
/// second is then rejected, as over budget, exactly when both together do
/// not fit.
pub proof fn lemma_overlapping_chances(
    cfg: GatekeeperConfig,
    in_flight: Seq<InFlight>,
    cooldown_until: Seq<u64>,
    used: u64,
    ev1: ChanceEvent,
    ev2: ChanceEvent,
    c1: u128,
    c2: u128,
    now: u64,
)
    requires
        ev1.cycle != ev2.cycle,
        c1 != c2,
        !has_cycle(in_flight, ev1.cycle),
        !has_cycle(in_flight, ev2.cycle),
        !has_correlation(in_flight, c1),
        !has_correlation(in_flight, c2),
        ev1.cycle < cooldown_until.len(),
        ev2.cycle < cooldown_until.len(),
        now >= cooldown_until[ev1.cycle as int],
        now >= cooldown_until[ev2.cycle as int],
        !is_stale(ev1.detected_at_ms, now, cfg.freshness_ms),
        !is_stale(ev2.detected_at_ms, now, cfg.freshness_ms),
        used + ev1.notional <= cfg.budget,
    ensures
        admission(cfg, false, in_flight, cooldown_until, used, ev1, c1, now) is None,
        ({
            let after = in_flight.push(
                InFlight {
                    correlation: c1,
                    cycle: ev1.cycle,
                    notional: ev1.notional,
                    since_ms: now,
                    done: (false, false, false),
                },
            );
            admission(cfg, false, after, cooldown_until, (used + ev1.notional) as u64, ev2, c2, now)
                == if used + ev1.notional + ev2.notional > cfg.budget {
                Some(Rejection::OverBudget)
            } else {
                None::<Rejection>
            }
        }),
{
    let after = in_flight.push(
        InFlight {
            correlation: c1,
            cycle: ev1.cycle,
            notional: ev1.notional,
            since_ms: now,
            done: (false, false, false),
        },
    );
    assert(!has_cycle(after, ev2.cycle)) by {
        assert forall|i: int| 0 <= i < after.len() implies (#[trigger] after[i]).cycle != ev2.cycle by {
            if i < in_flight.len() {
                assert(after[i] == in_flight[i]);
            }
        }
    }
    assert(!has_correlation(after, c2)) by {
        assert forall|i: int| 0 <= i < after.len() implies (#[trigger] after[i]).correlation != c2 by {
            if i < in_flight.len() {
                assert(after[i] == in_flight[i]);
            }
        }
    }
}

} // verus!
