use kucoin_arbitrage::book::Level;
use kucoin_arbitrage::detector::{
    cycle_opportunity, enumerate_cycles, symbols_in_scope, ChanceEvent, Cycle, Detector, DetectorConfig, Quote,
    SymbolPair, SymbolRules,
};
use kucoin_arbitrage::dispatcher::{
    canonical_id_text, client_order_id, leg_requests, next_leg_action, LegAction, PlaceResult,
};
use kucoin_arbitrage::gatekeeper::{
    Gatekeeper, GatekeeperConfig, LegState, OrderChangeEvent, Rejection,
};
use kucoin_arbitrage::monitor::{snapshot_retry_delay_ms, Counter};
use kucoin_arbitrage::quarantine::DesyncGuard;

const UNIT: u64 = 100_000_000;

// symbols: 0 BTC-USDT, 1 ETH-BTC, 2 ETH-USDT, 3 LTC-BTC, 4 LTC-USDT
const BTC: u32 = 1;
const USDT: u32 = 2;
const ETH: u32 = 3;
const LTC: u32 = 4;

fn quote(bid: Option<(u64, u64)>, ask: Option<(u64, u64)>, sequence: u64) -> Quote {
    Quote {
        best_bid: bid.map(|(price, size)| Level { price, size }),
        best_ask: ask.map(|(price, size)| Level { price, size }),
        sequence,
    }
}

fn config() -> DetectorConfig {
    DetectorConfig { fee_bps: 10, threshold_bps: 20, notional_ceiling: 1_000 * UNIT }
}

fn fine_rules() -> SymbolRules {
    SymbolRules { base_increment: 1, min_size: 0, min_funds: 0 }
}

fn forward() -> Cycle {
    Cycle { btc_usdt: 0, alt_btc: 1, alt_usdt: 2, forward: true }
}

/// BTC-USDT ask 30,000; ETH-BTC ask 0.060; ETH-USDT bid as given.
fn seed_quotes(eth_usdt_bid: u64) -> Vec<Quote> {
    vec![
        quote(Some((29_990 * UNIT, UNIT)), Some((30_000 * UNIT, UNIT)), 100),
        quote(Some((5_900_000, 10 * UNIT)), Some((6_000_000, 10 * UNIT)), 200),
        quote(Some((eth_usdt_bid * UNIT, 10 * UNIT)), Some((1_830 * UNIT, 10 * UNIT)), 300),
        quote(Some((1_000_000, 10 * UNIT)), Some((1_000_000, 10 * UNIT)), 400),
        quote(Some((400 * UNIT, 10 * UNIT)), Some((401 * UNIT, 10 * UNIT)), 500),
    ]
}

fn evaluate(quotes: &Vec<Quote>, rules: SymbolRules) -> Option<ChanceEvent> {
    cycle_opportunity(&config(), 0, forward(), rules, rules, rules, quotes[0], quotes[1], quotes[2], 1_000)
}

fn gate_config() -> GatekeeperConfig {
    GatekeeperConfig { budget: 1_000 * UNIT, freshness_ms: 500, cooldown_ms: 1_000, timeout_ms: 10_000 }
}

fn done(correlation: u128, leg: usize) -> OrderChangeEvent {
    OrderChangeEvent { correlation, leg, state: LegState::Done, filled: 1, remaining: 0 }
}

#[test]
fn profitable_forward_cycle_emits_chance() {
    let ev = evaluate(&seed_quotes(1_810), fine_rules()).expect("chance");
    assert_eq!(ev.notional, 1_000 * UNIT);
    assert_eq!((ev.leg0.symbol, ev.leg0.buy, ev.leg0.price, ev.leg0.size), (0, true, 30_000 * UNIT, 3_333_333));
    assert_eq!((ev.leg1.symbol, ev.leg1.buy, ev.leg1.price, ev.leg1.size), (1, true, 6_000_000, 55_555_550));
    assert_eq!((ev.leg2.symbol, ev.leg2.buy, ev.leg2.price, ev.leg2.size), (2, false, 1_810 * UNIT, 55_555_550));
    assert_eq!((ev.leg0.sequence, ev.leg1.sequence, ev.leg2.sequence), (100, 200, 300));
    assert_eq!(ev.detected_at_ms, 1_000);
    // about 2.55 USDT, 0.255% of the notional after three fees and rounding
    assert_eq!(ev.expected_profit, 254_899_975);
}

#[test]
fn unprofitable_forward_cycle_emits_nothing() {
    assert!(evaluate(&seed_quotes(1_800), fine_rules()).is_none());
}

#[test]
fn threshold_is_strict_and_fee_counts() {
    // 1,807 clears the three fees but not the 20 bps threshold on top
    assert!(evaluate(&seed_quotes(1_807), fine_rules()).is_none());
    assert!(evaluate(&seed_quotes(1_809), fine_rules()).is_none());
    assert!(evaluate(&seed_quotes(1_810), fine_rules()).is_some());
}

#[test]
fn empty_side_skips_cycle() {
    let mut q = seed_quotes(1_810);
    q[1] = quote(Some((5_900_000, UNIT)), None, 200);
    assert!(evaluate(&q, fine_rules()).is_none());
    let mut q = seed_quotes(1_810);
    q[2] = quote(None, Some((1_830 * UNIT, UNIT)), 300);
    assert!(evaluate(&q, fine_rules()).is_none());
}

#[test]
fn empty_side_not_traded_still_skips_cycle() {
    // the forward cycle sells on ETH-USDT's bid, but its ask side is empty
    let mut q = seed_quotes(1_810);
    q[2] = quote(Some((1_810 * UNIT, 10 * UNIT)), None, 300);
    assert!(evaluate(&q, fine_rules()).is_none());
    // the forward cycle buys on BTC-USDT's ask, but its bid side is empty
    let mut q = seed_quotes(1_810);
    q[0] = quote(None, Some((30_000 * UNIT, UNIT)), 100);
    assert!(evaluate(&q, fine_rules()).is_none());
    // the other cycle of a detector is still evaluated on the same quotes
    let mut d = two_cycle_detector();
    let mut q = seed_quotes(1_810);
    q[1] = quote(None, Some((6_000_000, 10 * UNIT)), 200);
    assert!(d.evaluate(0, &q, 0).is_none());
    assert!(d.evaluate(1, &q, 0).is_some());
}

#[test]
fn size_below_increment_emits_nothing() {
    // 0.0333 BTC rounds down to zero at a 0.1 BTC increment
    let coarse = SymbolRules { base_increment: UNIT / 10, min_size: 0, min_funds: 0 };
    assert!(evaluate(&seed_quotes(1_810), coarse).is_none());
    let min_lot = SymbolRules { base_increment: 1, min_size: UNIT, min_funds: 0 };
    assert!(evaluate(&seed_quotes(1_810), min_lot).is_none());
}

#[test]
fn reverse_cycle_uses_opposite_sides() {
    let q = vec![
        quote(Some((30_000 * UNIT, UNIT)), Some((30_010 * UNIT, UNIT)), 1),
        quote(Some((6_100_000, 10 * UNIT)), Some((6_200_000, 10 * UNIT)), 2),
        quote(Some((1_790 * UNIT, 10 * UNIT)), Some((1_800 * UNIT, 10 * UNIT)), 3),
    ];
    let rev = Cycle { btc_usdt: 0, alt_btc: 1, alt_usdt: 2, forward: false };
    let r = fine_rules();
    let ev = cycle_opportunity(&config(), 1, rev, r, r, r, q[0], q[1], q[2], 7).expect("chance");
    assert_eq!((ev.leg0.symbol, ev.leg0.buy, ev.leg0.price), (2, true, 1_800 * UNIT));
    assert_eq!((ev.leg1.symbol, ev.leg1.buy, ev.leg1.price), (1, false, 6_100_000));
    assert_eq!((ev.leg2.symbol, ev.leg2.buy, ev.leg2.price), (0, false, 30_000 * UNIT));
    // 1,000 USDT buys 0.55555555 ETH, sold for 0.03388888 BTC
    assert_eq!(ev.leg0.size, 55_555_555);
    assert_eq!(ev.leg1.size, 55_555_555);
    assert_eq!(ev.leg2.size, 3_388_888);
    assert_eq!(ev.expected_profit, 1_364_874_363);
    assert!(cycle_opportunity(&config(), 0, forward(), r, r, r, q[0], q[1], q[2], 7).is_none());
}

#[test]
fn cycles_enumerated_for_alts_in_both_quotes() {
    let pairs = vec![
        SymbolPair { base: BTC, quote: USDT },
        SymbolPair { base: ETH, quote: BTC },
        SymbolPair { base: ETH, quote: USDT },
        SymbolPair { base: LTC, quote: BTC },
        SymbolPair { base: 9, quote: BTC },
        SymbolPair { base: LTC, quote: USDT },
    ];
    let cycles = enumerate_cycles(&pairs, BTC, USDT);
    assert_eq!(cycles.len(), 4);
    assert_eq!((cycles[0].btc_usdt, cycles[0].alt_btc, cycles[0].alt_usdt, cycles[0].forward), (0, 1, 2, true));
    assert!(!cycles[1].forward);
    assert_eq!((cycles[2].alt_btc, cycles[2].alt_usdt), (3, 5));
    assert!(enumerate_cycles(&pairs[1..].to_vec(), BTC, USDT).is_empty());
}

fn two_cycle_detector() -> Detector {
    let cycles = vec![
        Cycle { btc_usdt: 0, alt_btc: 1, alt_usdt: 2, forward: true },
        Cycle { btc_usdt: 0, alt_btc: 3, alt_usdt: 4, forward: true },
    ];
    Detector::new(config(), cycles, vec![fine_rules(); 5])
}

#[test]
fn reverse_index_lists_cycles_of_symbol() {
    let d = two_cycle_detector();
    assert_eq!(d.cycles_for_symbol(0), vec![0, 1]);
    assert_eq!(d.cycles_for_symbol(3), vec![1]);
    assert!(d.cycles_for_symbol(7).is_empty());
}

#[test]
fn same_sequences_not_emitted_twice() {
    let mut d = two_cycle_detector();
    let q = seed_quotes(1_810);
    assert!(d.evaluate(0, &q, 1).is_some());
    assert!(d.evaluate(0, &q, 2).is_none());
    let mut q2 = q.clone();
    q2[0].sequence = 101;
    // the other two legs still carry the sequences already used
    assert!(d.evaluate(0, &q2, 3).is_none());
    q2[1].sequence = 201;
    q2[2].sequence = 301;
    assert!(d.evaluate(0, &q2, 4).is_some());
}

#[test]
fn overlapping_cycles_both_emit_budget_takes_first() {
    let mut d = two_cycle_detector();
    let q = seed_quotes(1_810);
    let a = d.evaluate(0, &q, 0).expect("eth cycle");
    let b = d.evaluate(1, &q, 0).expect("ltc cycle");
    let mut g = Gatekeeper::new(gate_config(), 2);
    assert!(g.consider(&a, 1, 10).is_ok());
    assert_eq!(g.consider(&b, 2, 10).unwrap_err(), Rejection::OverBudget);
    assert_eq!(g.used, 1_000 * UNIT);
    assert_eq!(g.counters.admitted, 1);
    assert_eq!(g.counters.rejected, 1);
}

fn chance_at(detected_at_ms: u64, notional: u64) -> ChanceEvent {
    let mut ev = evaluate(&seed_quotes(1_810), fine_rules()).unwrap();
    ev.detected_at_ms = detected_at_ms;
    ev.notional = notional;
    ev
}

#[test]
fn full_cycle_then_cooldown() {
    let mut g = Gatekeeper::new(gate_config(), 1);
    let order = g.consider(&chance_at(0, 1_000 * UNIT), 77, 100).expect("order");
    assert_eq!(order.correlation, 77);
    assert_eq!(order.committed_at_ms, 100);
    assert_eq!(g.consider(&chance_at(100, 10), 78, 100).unwrap_err(), Rejection::InFlight);
    assert!(!g.on_order_change(&done(77, 0), 200));
    assert!(!g.on_order_change(&done(77, 1), 200));
    assert!(g.on_order_change(&done(77, 2), 300));
    assert_eq!(g.used, 0);
    assert!(g.in_flight.is_empty());
    assert_eq!(g.cooldown_until[0], 1_300);
    assert_eq!(g.consider(&chance_at(1_299, 10), 79, 1_299).unwrap_err(), Rejection::CoolingDown);
    assert!(g.consider(&chance_at(1_300, 10), 79, 1_300).is_ok());
}

#[test]
fn stale_chance_rejected_and_counted() {
    let mut g = Gatekeeper::new(gate_config(), 1);
    assert_eq!(g.consider(&chance_at(0, 10), 1, 600).unwrap_err(), Rejection::Stale);
    assert_eq!(g.counters.stale_chance, 1);
    assert!(g.in_flight.is_empty());
    assert!(g.consider(&chance_at(100, 10), 1, 600).is_ok());
}

#[test]
fn duplicate_correlation_rejected() {
    let mut g = Gatekeeper::new(gate_config(), 2);
    assert!(g.consider(&chance_at(0, 10), 5, 0).is_ok());
    let mut other = chance_at(0, 10);
    other.cycle = 1;
    assert_eq!(g.consider(&other, 5, 0).unwrap_err(), Rejection::DuplicateCorrelation);
}

#[test]
fn silent_leg_forces_eviction() {
    let mut g = Gatekeeper::new(gate_config(), 1);
    g.consider(&chance_at(0, 500), 9, 0).unwrap();
    g.on_order_change(&done(9, 0), 50);
    g.on_order_change(&done(9, 1), 60);
    assert_eq!(g.on_tick(9_999), 0);
    assert_eq!(g.on_tick(10_000), 1);
    assert_eq!(g.counters.forced_eviction, 1);
    assert_eq!(g.cooldown_until[0], 20_000);
    assert_eq!(g.used, 0);
    assert!(g.in_flight.is_empty());
}

#[test]
fn non_terminal_and_unknown_updates_change_nothing() {
    let mut g = Gatekeeper::new(gate_config(), 1);
    g.consider(&chance_at(0, 500), 9, 0).unwrap();
    let open = OrderChangeEvent { correlation: 9, leg: 0, state: LegState::Match, filled: 1, remaining: 1 };
    assert!(!g.on_order_change(&open, 1));
    assert!(!g.on_order_change(&done(10, 0), 1));
    assert!(!g.on_order_change(&done(9, 3), 1));
    assert_eq!(g.in_flight[0].done, (false, false, false));
    let cancel = OrderChangeEvent { correlation: 9, leg: 1, state: LegState::Canceled, filled: 0, remaining: 1 };
    assert!(!g.on_order_change(&cancel, 1));
    assert_eq!(g.in_flight[0].done, (false, true, false));
}

#[test]
fn client_ids_carry_leg_suffix() {
    let x: u128 = 0x0123_4567_89ab_cdef_fedc_ba98_7654_3210;
    assert_eq!(String::from_utf8(canonical_id_text(x)).unwrap(), "01234567-89ab-cdef-fedc-ba9876543210");
    assert_eq!(String::from_utf8(client_order_id(x, 2)).unwrap(), "01234567-89ab-cdef-fedc-ba9876543210-2");
    assert_eq!(String::from_utf8(canonical_id_text(0)).unwrap(), "00000000-0000-0000-0000-000000000000");
}

#[test]
fn order_expands_to_three_legs() {
    let mut g = Gatekeeper::new(gate_config(), 1);
    let order = g.consider(&chance_at(0, 10), 0xff, 0).unwrap();
    let legs = leg_requests(&order);
    assert_eq!(legs.len(), 3);
    let ids: Vec<String> = legs.iter().map(|l| String::from_utf8(l.client_id.clone()).unwrap()).collect();
    assert_eq!(ids[0], "00000000-0000-0000-0000-0000000000ff-0");
    assert_eq!(ids[2], "00000000-0000-0000-0000-0000000000ff-2");
    assert_eq!((legs[1].symbol, legs[1].buy, legs[1].size), (1, true, 55_555_550));
}

#[test]
fn leg_retry_policy() {
    assert!(matches!(next_leg_action(1, 0, 5, 0, PlaceResult::Accepted), LegAction::Finished));
    assert!(matches!(next_leg_action(1, 0, 5, 0, PlaceResult::Transient), LegAction::Retry { delay_ms: 50 }));
    assert!(matches!(next_leg_action(1, 0, 5, 1, PlaceResult::Transient), LegAction::Retry { delay_ms: 50 }));
    match next_leg_action(1, 2, 5, 2, PlaceResult::Transient) {
        LegAction::Report(ev) => {
            assert_eq!((ev.correlation, ev.leg, ev.state, ev.remaining), (1, 2, LegState::Canceled, 5))
        }
        _ => panic!("expected a report"),
    }
    assert!(matches!(next_leg_action(1, 0, 5, 0, PlaceResult::Rejected), LegAction::Report(_)));
}

#[test]
fn rejected_leg_heals_gatekeeper() {
    let mut g = Gatekeeper::new(gate_config(), 1);
    g.consider(&chance_at(0, 10), 3, 0).unwrap();
    for leg in 0..3 {
        if let LegAction::Report(ev) = next_leg_action(3, leg, 1, 0, PlaceResult::Rejected) {
            g.on_order_change(&ev, 5);
        }
    }
    assert!(g.in_flight.is_empty());
    assert_eq!(g.used, 0);
}

#[test]
fn counter_samples_and_resets() {
    let mut c = Counter::new("orderbook");
    c.increment();
    c.increment();
    assert_eq!(c.name, "orderbook");
    assert_eq!(c.sample_and_reset(), 2);
    assert_eq!(c.count, 0);
}

#[test]
fn snapshot_backoff_doubles_to_cap() {
    assert_eq!(snapshot_retry_delay_ms(0), 100);
    assert_eq!(snapshot_retry_delay_ms(1), 200);
    assert_eq!(snapshot_retry_delay_ms(8), 25_600);
    assert_eq!(snapshot_retry_delay_ms(9), 30_000);
    assert_eq!(snapshot_retry_delay_ms(40), 30_000);
}

#[test]
fn quiesce_blocks_until_resync_releases_closed_orders() {
    let mut g = Gatekeeper::new(gate_config(), 3);
    let mut a = chance_at(0, 100);
    a.cycle = 0;
    let mut b = chance_at(0, 200);
    b.cycle = 1;
    g.consider(&a, 11, 0).unwrap();
    g.consider(&b, 12, 0).unwrap();
    g.quiesce();
    let mut c = chance_at(10, 10);
    c.cycle = 2;
    assert_eq!(g.consider(&c, 13, 10).unwrap_err(), Rejection::Quiesced);
    // only order 12 is still open at the exchange
    assert_eq!(g.resync(&vec![12, 99], 50), 1);
    assert!(!g.quiesced);
    assert_eq!(g.in_flight.len(), 1);
    assert_eq!(g.in_flight[0].correlation, 12);
    assert_eq!(g.used, 200);
    assert_eq!(g.cooldown_until[0], 1_050);
    assert_eq!(g.cooldown_until[1], 0);
    assert!(g.consider(&c, 13, 60).is_ok());
}

#[test]
fn repeated_violations_quarantine_symbol() {
    let mut guard = DesyncGuard::new(2, 1_000, 2);
    assert!(!guard.on_violation(0, 0));
    assert!(!guard.on_violation(0, 500));
    assert!(guard.on_violation(0, 900));
    assert!(guard.quarantined[0]);
    assert!(!guard.quarantined[1]);
    // a new window starts the count again
    assert!(!guard.on_violation(1, 0));
    assert!(!guard.on_violation(1, 999));
    assert!(!guard.on_violation(1, 1_000));
    assert_eq!(guard.count[1], 1);
    assert!(!guard.on_violation(1, 1_500));
    assert!(guard.on_violation(1, 1_999));
}

#[test]
fn scope_keeps_btc_and_usdt_quotes() {
    let pairs = vec![
        SymbolPair { base: ETH, quote: BTC },
        SymbolPair { base: ETH, quote: 7 },
        SymbolPair { base: BTC, quote: USDT },
        SymbolPair { base: LTC, quote: 8 },
    ];
    assert_eq!(symbols_in_scope(&pairs, BTC, USDT), vec![0, 2]);
}

#[test]
fn enumerated_cycles_are_distinct() {
    let pairs = vec![
        SymbolPair { base: BTC, quote: USDT },
        SymbolPair { base: ETH, quote: BTC },
        SymbolPair { base: ETH, quote: USDT },
        SymbolPair { base: ETH, quote: USDT },
    ];
    let cycles = enumerate_cycles(&pairs, BTC, USDT);
    assert_eq!(cycles.len(), 2);
    assert!(cycles[0].forward && !cycles[1].forward);
}

#[test]
fn large_alt_sizes_are_handled() {
    // a cheap alt: 500 million units resting at 0.00000100 BTC and 0.03 USDT
    let big = 500_000_000 * UNIT;
    let q = vec![
        quote(Some((29_990 * UNIT, UNIT)), Some((30_000 * UNIT, UNIT)), 1),
        quote(Some((90, big)), Some((100, big)), 2),
        quote(Some((3_100_000, big)), Some((3_200_000, big)), 3),
    ];
    let r = fine_rules();
    let ev = cycle_opportunity(&config(), 0, forward(), r, r, r, q[0], q[1], q[2], 0).expect("chance");
    assert_eq!(ev.notional, 1_000 * UNIT);
    // 0.03333333 BTC buys 33,333.33 units of the alt
    assert_eq!(ev.leg1.size, 3_333_333_000_000);
    assert_eq!(ev.leg2.size, 3_333_333_000_000);
}
