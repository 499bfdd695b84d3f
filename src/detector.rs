//! Triangular opportunity detection between BTC, USDT and an alt asset.
use vstd::prelude::*;
use crate::book::{Level, MAX_SIZE, MAX_TICKS};

verus! {

/// Ticks per unit of price or size.
pub const PRICE_SCALE: u64 = 100_000_000;

/// Basis points per unit.
pub const BPS: u64 = 10_000;

/// Trading rules of one symbol, in ticks.
#[derive(Debug, Clone, Copy)]
pub struct SymbolRules {
    pub base_increment: u64,
    pub min_size: u64,
    pub min_funds: u64,
}

/// The top of one symbol's book and the sequence at which it was read.
#[derive(Debug, Clone, Copy)]
pub struct Quote {
    pub best_bid: Option<Level>,
    pub best_ask: Option<Level>,
    pub sequence: u64,
}

/// A monitored cycle, by symbol index. Forward: buy BTC-USDT, buy A-BTC,
/// sell A-USDT. Reverse: buy A-USDT, sell A-BTC, sell BTC-USDT.
#[derive(Debug, Clone, Copy)]
pub struct Cycle {
    pub btc_usdt: usize,
    pub alt_btc: usize,
    pub alt_usdt: usize,
    pub forward: bool,
}

/// Fee per leg and profit threshold in basis points, and the most notional,
/// in USDT ticks, that one cycle may commit.
#[derive(Debug, Clone, Copy)]
pub struct DetectorConfig {
    pub fee_bps: u64,
    pub threshold_bps: u64,
    pub notional_ceiling: u64,
}

impl DetectorConfig {
    pub open spec fn wf(&self) -> bool {
        self.fee_bps < BPS && self.threshold_bps <= BPS
    }
}

/// One leg of a triangular order.
#[derive(Debug, Clone, Copy)]
pub struct Leg {
    pub symbol: usize,
    pub buy: bool,
    pub price: u64,
    pub size: u64,
    pub sequence: u64,
}

/// A detected opportunity: the cycle, its three taker legs, the notional it
/// commits and the profit it is expected to make, both in USDT ticks.
#[derive(Debug, Clone, Copy)]
pub struct ChanceEvent {
    pub cycle: usize,
    pub leg0: Leg,
    pub leg1: Leg,
    pub leg2: Leg,
    pub notional: u64,
    pub expected_profit: i128,
    pub detected_at_ms: u64,
}

/// The smaller of `a` and `b`.
pub open spec fn min2(a: int, b: int) -> int {
    if a <= b { a } else { b }
}

/// `q` rounded down to a multiple of `inc`.
pub open spec fn round_down(q: int, inc: int) -> int {
    q - q % inc
}

/// Forward cycle clears the threshold: the USDT received after three taker
/// legs, each paying `fee` basis points, exceeds the notional by more than
/// `th` basis points.
pub open spec fn forward_profitable(ask_bu: int, ask_ab: int, bid_au: int, fee: int, th: int) -> bool {
    bid_au * PRICE_SCALE * (BPS - fee) * BPS * BPS > ask_bu * ask_ab * (BPS + fee) * (BPS + fee) * (
    BPS + th)
}

/// Reverse cycle clears the threshold.
pub open spec fn reverse_profitable(ask_au: int, bid_ab: int, bid_bu: int, fee: int, th: int) -> bool {
    bid_ab * bid_bu * (BPS - fee) * (BPS - fee) > ask_au * PRICE_SCALE * (BPS + fee) * (BPS + th)
}

/// Value in quote ticks of `size` at `price`.
pub open spec fn value(size: int, price: int) -> int {
    size * price / PRICE_SCALE as int
}

/// Expected profit, in USDT ticks: what selling `last` brings after its
/// fee, less what `first` costs with the fees of the two buying legs.
pub open spec fn profit_of(first: Leg, last: Leg, fee: int) -> int {
    value(last.size as int, last.price as int) * (BPS - fee) / BPS as int - value(
        first.size as int,
        first.price as int,
    ) * (BPS + fee) * (BPS + fee) / (BPS * BPS) as int
}

/// Whether a leg satisfies its symbol's rules.
pub open spec fn leg_ok(l: Leg, r: SymbolRules) -> bool {
    &&& l.size > 0
    &&& l.size >= r.min_size
    &&& value(l.size as int, l.price as int) >= r.min_funds
}

/// Notional of a forward cycle, in USDT ticks: the ceiling, capped by what
/// each of the three levels can fill.
pub open spec fn forward_notional(ceiling: int, ask_bu: Level, ask_ab: Level, bid_au: Level) -> int {
    min2(
        min2(ceiling, value(ask_bu.size as int, ask_bu.price as int)),
        min2(
            value(value(ask_ab.size as int, ask_ab.price as int), ask_bu.price as int),
            value(bid_au.size as int, bid_au.price as int),
        ),
    )
}

/// Notional of a reverse cycle, in USDT ticks.
pub open spec fn reverse_notional(ceiling: int, ask_au: Level, bid_ab: Level, bid_bu: Level) -> int {
    min2(
        min2(ceiling, value(ask_au.size as int, ask_au.price as int)),
        min2(
            value(value(bid_ab.size as int, bid_ab.price as int), bid_bu.price as int),
            value(bid_bu.size as int, bid_bu.price as int),
        ),
    )
}

/// Size bought on the first leg: the notional converted at `price`, no more
/// than the level holds, rounded down to the increment.
pub open spec fn first_size(notional: int, l: Level, inc: int) -> int {
    round_down(min2(notional * PRICE_SCALE / l.price as int, l.size as int), inc)
}

/// A leg on `symbol` at level `l`'s price.
pub open spec fn mk_leg(symbol: usize, buy: bool, l: Level, size: int, sequence: u64) -> Leg {
    Leg { symbol, buy, price: l.price, size: size as u64, sequence }
}

/// Whether a quote has both a bid and an ask side.
pub open spec fn two_sided(q: Quote) -> bool {
    q.best_bid is Some && q.best_ask is Some
}

/// The opportunity on cycle `ci` for the given quotes, if there is one: no
/// opportunity when any side of the three books is empty, when the cycle
/// does not clear the threshold, or when a leg breaks its symbol's rules
/// after rounding.
pub open spec fn cycle_chance(
    cfg: DetectorConfig,
    ci: usize,
    cy: Cycle,
    r_bu: SymbolRules,
    r_ab: SymbolRules,
    r_au: SymbolRules,
    bu: Quote,
    ab: Quote,
    au: Quote,
    now_ms: u64,
) -> Option<ChanceEvent> {
    let fee = cfg.fee_bps as int;
    let th = cfg.threshold_bps as int;
    if !two_sided(bu) || !two_sided(ab) || !two_sided(au) {
        None
    } else if cy.forward {
        if bu.best_ask is None || ab.best_ask is None || au.best_bid is None {
            None
        } else {
            let a_bu = bu.best_ask.unwrap();
            let a_ab = ab.best_ask.unwrap();
            let b_au = au.best_bid.unwrap();
            if !forward_profitable(a_bu.price as int, a_ab.price as int, b_au.price as int, fee, th) {
                None
            } else {
                let n = forward_notional(cfg.notional_ceiling as int, a_bu, a_ab, b_au);
                let q0 = first_size(n, a_bu, r_bu.base_increment as int);
                let q1 = round_down(
                    min2(q0 * PRICE_SCALE / a_ab.price as int, a_ab.size as int),
                    r_ab.base_increment as int,
                );
                let q2 = round_down(min2(q1, b_au.size as int), r_au.base_increment as int);
                let l0 = mk_leg(cy.btc_usdt, true, a_bu, q0, bu.sequence);
                let l1 = mk_leg(cy.alt_btc, true, a_ab, q1, ab.sequence);
                let l2 = mk_leg(cy.alt_usdt, false, b_au, q2, au.sequence);
                if leg_ok(l0, r_bu) && leg_ok(l1, r_ab) && leg_ok(l2, r_au) {
                    Some(
                        ChanceEvent {
                            cycle: ci,
                            leg0: l0,
                            leg1: l1,
                            leg2: l2,
                            notional: n as u64,
                            expected_profit: profit_of(l0, l2, fee) as i128,
                            detected_at_ms: now_ms,
                        },
                    )
                } else {
                    None
                }
            }
        }
    } else {
        if au.best_ask is None || ab.best_bid is None || bu.best_bid is None {
            None
        } else {
            let a_au = au.best_ask.unwrap();
            let b_ab = ab.best_bid.unwrap();
            let b_bu = bu.best_bid.unwrap();
            if !reverse_profitable(a_au.price as int, b_ab.price as int, b_bu.price as int, fee, th) {
                None
            } else {
                let n = reverse_notional(cfg.notional_ceiling as int, a_au, b_ab, b_bu);
                let q0 = first_size(n, a_au, r_au.base_increment as int);
                let q1 = round_down(min2(q0, b_ab.size as int), r_ab.base_increment as int);
                let q2 = round_down(
                    min2(value(q1, b_ab.price as int), b_bu.size as int),
                    r_bu.base_increment as int,
                );
                let l0 = mk_leg(cy.alt_usdt, true, a_au, q0, au.sequence);
                let l1 = mk_leg(cy.alt_btc, false, b_ab, q1, ab.sequence);
                let l2 = mk_leg(cy.btc_usdt, false, b_bu, q2, bu.sequence);
                if leg_ok(l0, r_au) && leg_ok(l1, r_ab) && leg_ok(l2, r_bu) {
                    Some(
                        ChanceEvent {
                            cycle: ci,
                            leg0: l0,
                            leg1: l1,
                            leg2: l2,
                            notional: n as u64,
                            expected_profit: profit_of(l0, l2, fee) as i128,
                            detected_at_ms: now_ms,
                        },
                    )
                } else {
                    None
                }
            }
        }
    }
}

/// Rules with a usable base increment.
pub open spec fn rules_wf(r: SymbolRules) -> bool {
    r.base_increment >= 1
}

/// A quote whose levels lie in the representable range.
pub open spec fn quote_wf(q: Quote) -> bool {
    &&& (q.best_bid matches Some(l) ==> 1 <= l.price <= MAX_TICKS && l.size <= MAX_SIZE)
    &&& (q.best_ask matches Some(l) ==> 1 <= l.price <= MAX_TICKS && l.size <= MAX_SIZE)
}

proof fn lemma_mul_le(a: int, b: int, x: int, y: int)
    requires
        0 <= a <= x,
        0 <= b <= y,
    ensures
        a * b <= x * y,
{
    assert(a * b <= x * y) by (nonlinear_arith)
        requires 0 <= a <= x, 0 <= b <= y;
}

/// `a * b / d`.
fn mul_div(a: u128, b: u128, d: u128) -> (r: u128)
    requires
        d > 0,
        (a as int) * (b as int) <= u128::MAX,
    ensures
        r == (a as int) * (b as int) / (d as int),
{
    a * b / d
}

/// `q` rounded down to a multiple of `inc`.
fn round_down_exec(q: u128, inc: u128) -> (r: u128)
    requires
        inc > 0,
    ensures
        r == round_down(q as int, inc as int),
        r <= q,
{
    let m = q % inc;
    assert(m <= q) by (nonlinear_arith)
        requires m == q % inc, inc > 0, q >= 0;
    q - m
}

fn min_u128(a: u128, b: u128) -> (r: u128)
    ensures
        r == min2(a as int, b as int),
{
    if a <= b { a } else { b }
}

/// Whether a leg satisfies its symbol's rules.
fn leg_passes(l: Leg, r: SymbolRules) -> (ok: bool)
    requires
        l.price <= MAX_TICKS,
        l.size <= MAX_SIZE,
    ensures
        ok == leg_ok(l, r),
{
    proof {
        lemma_mul_le(l.size as int, l.price as int, MAX_SIZE as int, MAX_TICKS as int);
    }
    l.size > 0 && l.size >= r.min_size
        && mul_div(l.size as u128, l.price as u128, PRICE_SCALE as u128) >= r.min_funds as u128
}

/// Expected profit of a chance whose first leg is `first` and last `last`.
fn expected_profit(first: Leg, last: Leg, fee: u64) -> (r: i128)
    requires
        first.price <= MAX_TICKS,
        first.size <= MAX_SIZE,
        last.price <= MAX_TICKS,
        last.size <= MAX_SIZE,
        fee < BPS,
    ensures
        r == profit_of(first, last, fee as int),
{
    proof {
        lemma_value_bound(last.size as int, last.price as int);
        lemma_value_bound(first.size as int, first.price as int);
        lemma_mul_le(last.size as int, last.price as int, MAX_SIZE as int, MAX_TICKS as int);
        lemma_mul_le(first.size as int, first.price as int, MAX_SIZE as int, MAX_TICKS as int);
    }
    let proceeds = mul_div(last.size as u128, last.price as u128, PRICE_SCALE as u128);
    proof {
        lemma_mul_le(proceeds as int, (BPS - fee) as int, 0x8000_0000_0000_0000_0000, BPS as int);
    }
    let net = mul_div(proceeds, (BPS - fee) as u128, BPS as u128);
    let paid = mul_div(first.size as u128, first.price as u128, PRICE_SCALE as u128);
    let markup = (BPS + fee) as u128;
    proof {
        lemma_mul_le(paid as int, markup as int, 0x8000_0000_0000_0000_0000, 20_000);
        lemma_mul_le((paid * markup) as int, markup as int, (0x8000_0000_0000_0000_0000 * 20_000) as int, 20_000);
        assert(net <= proceeds) by (nonlinear_arith)
            requires net == proceeds * (10_000 - fee) / 10_000, fee < 10_000, proceeds >= 0;
    }
    let cost = mul_div(paid * markup, markup, (BPS * BPS) as u128);
    proof {
        assert(cost <= paid * markup * markup) by (nonlinear_arith)
            requires cost == paid * markup * markup / 100_000_000, paid >= 0, markup >= 0;
        assert(paid * markup * markup <= 0x8000_0000_0000_0000_0000 * 20_000 * 20_000) by (nonlinear_arith)
            requires paid * markup <= 0x8000_0000_0000_0000_0000 * 20_000, markup <= 20_000, paid >= 0, markup >= 0;
    }
    net as i128 - cost as i128
}

/// Whether a quote has both sides.
fn quote_two_sided(q: Quote) -> (r: bool)
    ensures
        r == two_sided(q),
{
    q.best_bid.is_some() && q.best_ask.is_some()
}

/// Exact test of `forward_profitable`.
fn forward_gate(ask_bu: u64, ask_ab: u64, bid_au: u64, fee: u64, th: u64) -> (r: bool)
    requires
        ask_bu <= MAX_TICKS,
        ask_ab <= MAX_TICKS,
        bid_au <= MAX_TICKS,
        fee < BPS,
        th <= BPS,
    ensures
        r == forward_profitable(ask_bu as int, ask_ab as int, bid_au as int, fee as int, th as int),
{
    let b: u128 = BPS as u128;
    let bid = bid_au as u128;
    let x = b - fee as u128;
    assert(bid * 100_000_000 * x * b * b <= 0xFFFF_FFFF_FFFF * 100_000_000 * 10_000 * 10_000
        * 10_000) by (nonlinear_arith)
        requires bid <= 0xFFFF_FFFF_FFFF, x <= 10_000, b == 10_000;
    let lhs = bid * (PRICE_SCALE as u128) * x * b * b;
    let a1 = ask_bu as u128;
    let a2 = ask_ab as u128;
    proof {
        lemma_mul_le(a1 as int, a2 as int, MAX_TICKS as int, MAX_TICKS as int);
    }
    let p = a1 * a2;
    let y = b + fee as u128;
    let z = b + th as u128;
    proof {
        lemma_mul_le(y as int, y as int, 20_000, 20_000);
    }
    let yy = y * y;
    proof {
        lemma_mul_le(yy as int, z as int, 400_000_000, 20_000);
    }
    let k = yy * z;
    assert((a1 * a2) * (yy * z) == a1 * a2 * y * y * z) by (nonlinear_arith)
        requires yy == y * y;
    match p.checked_mul(k) {
        Some(rhs) => lhs > rhs,
        None => false,
    }
}

/// Exact test of `reverse_profitable`.
fn reverse_gate(ask_au: u64, bid_ab: u64, bid_bu: u64, fee: u64, th: u64) -> (r: bool)
    requires
        ask_au <= MAX_TICKS,
        bid_ab <= MAX_TICKS,
        bid_bu <= MAX_TICKS,
        fee < BPS,
        th <= BPS,
    ensures
        r == reverse_profitable(ask_au as int, bid_ab as int, bid_bu as int, fee as int, th as int),
{
    let b: u128 = BPS as u128;
    let x = b - fee as u128;
    let b1 = bid_ab as u128;
    let b2 = bid_bu as u128;
    proof {
        lemma_mul_le(b1 as int, b2 as int, MAX_TICKS as int, MAX_TICKS as int);
    }
    let bb = b1 * b2;
    proof {
        lemma_mul_le(bb as int, x as int, (MAX_TICKS * MAX_TICKS) as int, 10_000);
    }
    let bbx = bb * x;
    proof {
        lemma_mul_le(bbx as int, x as int, (MAX_TICKS * MAX_TICKS * 10_000) as int, 10_000);
    }
    let lhs = bbx * x;
    let a = ask_au as u128;
    let y = b + fee as u128;
    let z = b + th as u128;
    proof {
        lemma_mul_le(a as int, 100_000_000, MAX_TICKS as int, 100_000_000);
    }
    let a_s = a * (PRICE_SCALE as u128);
    proof {
        lemma_mul_le(a_s as int, y as int, (MAX_TICKS * 100_000_000) as int, 20_000);
    }
    let a_sy = a_s * y;
    proof {
        lemma_mul_le(a_sy as int, z as int, (MAX_TICKS * 100_000_000 * 20_000) as int, 20_000);
    }
    let rhs = a_sy * z;
    lhs > rhs
}

proof fn lemma_value_bound(s: int, p: int)
    requires
        0 <= s <= MAX_SIZE,
        0 <= p <= MAX_TICKS,
    ensures
        0 <= value(s, p) <= 0x8000_0000_0000_0000_0000,
{
    lemma_mul_le(s, p, MAX_SIZE as int, MAX_TICKS as int);
    assert(0 <= s * p / 100_000_000 <= 0x8000_0000_0000_0000_0000) by (nonlinear_arith)
        requires 0 <= s * p <= 0x1FF_FFFF_FFFF_FFFF * 0xFFFF_FFFF_FFFF;
}

/// The opportunity on a forward cycle.
fn forward_chance(
    cfg: &DetectorConfig,
    ci: usize,
    cy: Cycle,
    r_bu: SymbolRules,
    r_ab: SymbolRules,
    r_au: SymbolRules,
    bu: Quote,
    ab: Quote,
    au: Quote,
    now_ms: u64,
) -> (r: Option<ChanceEvent>)
    requires
        cfg.wf(),
        cy.forward,
        rules_wf(r_bu),
        rules_wf(r_ab),
        rules_wf(r_au),
        quote_wf(bu),
        quote_wf(ab),
        quote_wf(au),
    ensures
        r == cycle_chance(*cfg, ci, cy, r_bu, r_ab, r_au, bu, ab, au, now_ms),
{
    if !quote_two_sided(bu) || !quote_two_sided(ab) || !quote_two_sided(au) {
        return None;
    }
    let a_bu = match bu.best_ask {
        Some(l) => l,
        None => return None,
    };
    let a_ab = match ab.best_ask {
        Some(l) => l,
        None => return None,
    };
    let b_au = match au.best_bid {
        Some(l) => l,
        None => return None,
    };
    if !forward_gate(a_bu.price, a_ab.price, b_au.price, cfg.fee_bps, cfg.threshold_bps) {
        return None;
    }
    let s = PRICE_SCALE as u128;
    proof {
        lemma_mul_le(a_bu.size as int, a_bu.price as int, MAX_SIZE as int, MAX_TICKS as int);
        lemma_mul_le(a_ab.size as int, a_ab.price as int, MAX_SIZE as int, MAX_TICKS as int);
        lemma_mul_le(b_au.size as int, b_au.price as int, MAX_SIZE as int, MAX_TICKS as int);
        lemma_value_bound(a_ab.size as int, a_ab.price as int);
    }
    let v_bu = mul_div(a_bu.size as u128, a_bu.price as u128, s);
    let v_ab_btc = mul_div(a_ab.size as u128, a_ab.price as u128, s);
    proof {
        lemma_mul_le(v_ab_btc as int, a_bu.price as int, 0x8000_0000_0000_0000_0000, MAX_TICKS as int);
    }
    let v_ab = mul_div(v_ab_btc, a_bu.price as u128, s);
    let v_au = mul_div(b_au.size as u128, b_au.price as u128, s);
    let n = min_u128(min_u128(cfg.notional_ceiling as u128, v_bu), min_u128(v_ab, v_au));
    proof {
        lemma_mul_le(n as int, s as int, u64::MAX as int, s as int);
    }
    let q0 = round_down_exec(
        min_u128(mul_div(n, s, a_bu.price as u128), a_bu.size as u128),
        r_bu.base_increment as u128,
    );
    proof {
        lemma_mul_le(q0 as int, s as int, MAX_SIZE as int, s as int);
    }
    let q1 = round_down_exec(
        min_u128(mul_div(q0, s, a_ab.price as u128), a_ab.size as u128),
        r_ab.base_increment as u128,
    );
    let q2 = round_down_exec(min_u128(q1, b_au.size as u128), r_au.base_increment as u128);
    let l0 = Leg {
        symbol: cy.btc_usdt,
        buy: true,
        price: a_bu.price,
        size: q0 as u64,
        sequence: bu.sequence,
    };
    let l1 = Leg {
        symbol: cy.alt_btc,
        buy: true,
        price: a_ab.price,
        size: q1 as u64,
        sequence: ab.sequence,
    };
    let l2 = Leg {
        symbol: cy.alt_usdt,
        buy: false,
        price: b_au.price,
        size: q2 as u64,
        sequence: au.sequence,
    };
    if leg_passes(l0, r_bu) && leg_passes(l1, r_ab) && leg_passes(l2, r_au) {
        Some(
            ChanceEvent {
                cycle: ci,
                leg0: l0,
                leg1: l1,
                leg2: l2,
                notional: n as u64,
                expected_profit: expected_profit(l0, l2, cfg.fee_bps),
                detected_at_ms: now_ms,
            },
        )
    } else {
        None
    }
}

/// The opportunity on a reverse cycle.
fn reverse_chance(
    cfg: &DetectorConfig,
    ci: usize,
    cy: Cycle,
    r_bu: SymbolRules,
    r_ab: SymbolRules,
    r_au: SymbolRules,
    bu: Quote,
    ab: Quote,
    au: Quote,
    now_ms: u64,
) -> (r: Option<ChanceEvent>)
    requires
        cfg.wf(),
        !cy.forward,
        rules_wf(r_bu),
        rules_wf(r_ab),
        rules_wf(r_au),
        quote_wf(bu),
        quote_wf(ab),
        quote_wf(au),
    ensures
        r == cycle_chance(*cfg, ci, cy, r_bu, r_ab, r_au, bu, ab, au, now_ms),
{
    if !quote_two_sided(bu) || !quote_two_sided(ab) || !quote_two_sided(au) {
        return None;
    }
    let a_au = match au.best_ask {
        Some(l) => l,
        None => return None,
    };
    let b_ab = match ab.best_bid {
        Some(l) => l,
        None => return None,
    };
    let b_bu = match bu.best_bid {
        Some(l) => l,
        None => return None,
    };
    if !reverse_gate(a_au.price, b_ab.price, b_bu.price, cfg.fee_bps, cfg.threshold_bps) {
        return None;
    }
    let s = PRICE_SCALE as u128;
    proof {
        lemma_mul_le(a_au.size as int, a_au.price as int, MAX_SIZE as int, MAX_TICKS as int);
        lemma_mul_le(b_ab.size as int, b_ab.price as int, MAX_SIZE as int, MAX_TICKS as int);
        lemma_mul_le(b_bu.size as int, b_bu.price as int, MAX_SIZE as int, MAX_TICKS as int);
        lemma_value_bound(b_ab.size as int, b_ab.price as int);
    }
    let v_au = mul_div(a_au.size as u128, a_au.price as u128, s);
    let v_ab_btc = mul_div(b_ab.size as u128, b_ab.price as u128, s);
    proof {
        lemma_mul_le(v_ab_btc as int, b_bu.price as int, 0x8000_0000_0000_0000_0000, MAX_TICKS as int);
    }
    let v_ab = mul_div(v_ab_btc, b_bu.price as u128, s);
    let v_bu = mul_div(b_bu.size as u128, b_bu.price as u128, s);
    let n = min_u128(min_u128(cfg.notional_ceiling as u128, v_au), min_u128(v_ab, v_bu));
    proof {
        lemma_mul_le(n as int, s as int, u64::MAX as int, s as int);
    }
    let q0 = round_down_exec(
        min_u128(mul_div(n, s, a_au.price as u128), a_au.size as u128),
        r_au.base_increment as u128,
    );
    let q1 = round_down_exec(min_u128(q0, b_ab.size as u128), r_ab.base_increment as u128);
    proof {
        lemma_mul_le(q1 as int, b_ab.price as int, MAX_SIZE as int, MAX_TICKS as int);
    }
    let q2 = round_down_exec(
        min_u128(mul_div(q1, b_ab.price as u128, s), b_bu.size as u128),
        r_bu.base_increment as u128,
    );
    let l0 = Leg {
        symbol: cy.alt_usdt,
        buy: true,
        price: a_au.price,
        size: q0 as u64,
        sequence: au.sequence,
    };
    let l1 = Leg {
        symbol: cy.alt_btc,
        buy: false,
        price: b_ab.price,
        size: q1 as u64,
        sequence: ab.sequence,
    };
    let l2 = Leg {
        symbol: cy.btc_usdt,
        buy: false,
        price: b_bu.price,
        size: q2 as u64,
        sequence: bu.sequence,
    };
    if leg_passes(l0, r_au) && leg_passes(l1, r_ab) && leg_passes(l2, r_bu) {
        Some(
            ChanceEvent {
                cycle: ci,
                leg0: l0,
                leg1: l1,
                leg2: l2,
                notional: n as u64,
                expected_profit: expected_profit(l0, l2, cfg.fee_bps),
                detected_at_ms: now_ms,
            },
        )
    } else {
        None
    }
}

/// The opportunity on a cycle for the given quotes and rules, if any.
pub fn cycle_opportunity(
    cfg: &DetectorConfig,
    ci: usize,
    cy: Cycle,
    r_bu: SymbolRules,
    r_ab: SymbolRules,
    r_au: SymbolRules,
    bu: Quote,
    ab: Quote,
    au: Quote,
    now_ms: u64,
) -> (r: Option<ChanceEvent>)
    requires
        cfg.wf(),
        rules_wf(r_bu),
        rules_wf(r_ab),
        rules_wf(r_au),
        quote_wf(bu),
        quote_wf(ab),
        quote_wf(au),
    ensures
        r == cycle_chance(*cfg, ci, cy, r_bu, r_ab, r_au, bu, ab, au, now_ms),
{
    if cy.forward {
        forward_chance(cfg, ci, cy, r_bu, r_ab, r_au, bu, ab, au, now_ms)
    } else {
        reverse_chance(cfg, ci, cy, r_bu, r_ab, r_au, bu, ab, au, now_ms)
    }
}

/// The sequences of a chance's three legs.
pub open spec fn seq_triple(ev: ChanceEvent) -> (u64, u64, u64) {
    (ev.leg0.sequence, ev.leg1.sequence, ev.leg2.sequence)
}

/// Whether a chance shares no leg sequence with the previous one emitted
/// on its cycle.
pub open spec fn fresh_against(prev: Option<(u64, u64, u64)>, ev: ChanceEvent) -> bool {
    match prev {
        None => true,
        Some(p) => ev.leg0.sequence != p.0 && ev.leg1.sequence != p.1 && ev.leg2.sequence != p.2,
    }
}

/// Base and quote asset of a symbol, as asset ids.
#[derive(Debug, Clone, Copy)]
pub struct SymbolPair {
    pub base: u32,
    pub quote: u32,
}

/// Whether `cy` is a cycle through BTC, USDT and one alt among `pairs`.
pub open spec fn is_cycle(pairs: Seq<SymbolPair>, btc: u32, usdt: u32, cy: Cycle) -> bool {
    &&& 0 <= cy.btc_usdt < pairs.len()
    &&& 0 <= cy.alt_btc < pairs.len()
    &&& 0 <= cy.alt_usdt < pairs.len()
    &&& pairs[cy.btc_usdt as int] == SymbolPair { base: btc, quote: usdt }
    &&& pairs[cy.alt_btc as int].quote == btc
    &&& pairs[cy.alt_usdt as int].quote == usdt
    &&& pairs[cy.alt_btc as int].base == pairs[cy.alt_usdt as int].base
    &&& pairs[cy.alt_btc as int].base != btc
    &&& pairs[cy.alt_btc as int].base != usdt
}

/// Index of the first symbol with the given base and quote, or `len` if none.
fn find_pair(pairs: &Vec<SymbolPair>, base: u32, quote: u32) -> (r: usize)
    ensures
        r <= pairs@.len(),
        r < pairs@.len() ==> pairs@[r as int] == (SymbolPair { base, quote }),
        r == pairs@.len() ==> forall|k: int| 0 <= k < pairs@.len() ==> #[trigger] pairs@[k] != (
        SymbolPair { base, quote }),
{
    let mut i: usize = 0;
    while i < pairs.len()
        invariant
            i <= pairs@.len(),
            forall|k: int| 0 <= k < i ==> #[trigger] pairs@[k] != (SymbolPair { base, quote }),
        decreases pairs@.len() - i,
    {
        if pairs[i].base == base && pairs[i].quote == quote {
            return i;
        }
        i = i + 1;
    }
    i
}

/// Whether symbol `i` is an alt quoted in BTC whose alt is also quoted in
/// USDT, with a BTC-USDT symbol present.
pub open spec fn is_alt_btc(pairs: Seq<SymbolPair>, btc: u32, usdt: u32, i: int) -> bool {
    &&& 0 <= i < pairs.len()
    &&& pairs[i].quote == btc
    &&& pairs[i].base != btc
    &&& pairs[i].base != usdt
    &&& exists|j: int| 0 <= j < pairs.len() && #[trigger] pairs[j] == (SymbolPair { base: pairs[i].base, quote: usdt })
    &&& exists|k: int| 0 <= k < pairs.len() && #[trigger] pairs[k] == (SymbolPair { base: btc, quote: usdt })
}

/// Whether `cycles` holds a forward and a reverse cycle through symbol `i`.
pub open spec fn covers(cycles: Seq<Cycle>, i: int) -> bool {
    &&& exists|c: int| 0 <= c < cycles.len() && (#[trigger] cycles[c]).alt_btc == i && cycles[c].forward
    &&& exists|d: int| 0 <= d < cycles.len() && (#[trigger] cycles[d]).alt_btc == i && !cycles[d].forward
}

/// All monitored cycles: for every alt quoted in both BTC and USDT, a
/// forward and a reverse cycle. None without a BTC-USDT symbol.
pub fn enumerate_cycles(pairs: &Vec<SymbolPair>, btc: u32, usdt: u32) -> (r: Vec<Cycle>)
    ensures
        forall|c: int| 0 <= c < r@.len() ==> is_cycle(pairs@, btc, usdt, #[trigger] r@[c]),
        forall|i: int| #[trigger] is_alt_btc(pairs@, btc, usdt, i) ==> covers(r@, i),
        forall|a: int, b: int| 0 <= a < b < r@.len() ==> #[trigger] r@[a] != #[trigger] r@[b],
{
    let mut out: Vec<Cycle> = Vec::new();
    let bu = find_pair(pairs, btc, usdt);
    if bu == pairs.len() {
        return out;
    }
    let mut i: usize = 0;
    while i < pairs.len()
        invariant
            i <= pairs@.len(),
            bu < pairs@.len(),
            pairs@[bu as int] == (SymbolPair { base: btc, quote: usdt }),
            forall|c: int| 0 <= c < out@.len() ==> is_cycle(pairs@, btc, usdt, #[trigger] out@[c]),
            forall|ii: int| ii < i && #[trigger] is_alt_btc(pairs@, btc, usdt, ii) ==> covers(out@, ii),
            forall|c: int| 0 <= c < out@.len() ==> (#[trigger] out@[c]).alt_btc < i,
            forall|a: int, b: int| 0 <= a < b < out@.len() ==> #[trigger] out@[a] != #[trigger] out@[b],
        decreases pairs@.len() - i,
    {
        let p = pairs[i];
        let ghost before = out@;
        if p.quote == btc && p.base != btc && p.base != usdt {
            let j = find_pair(pairs, p.base, usdt);
            if j < pairs.len() {
                out.push(Cycle { btc_usdt: bu, alt_btc: i, alt_usdt: j, forward: true });
                out.push(Cycle { btc_usdt: bu, alt_btc: i, alt_usdt: j, forward: false });
                proof {
                    let c = before.len() as int;
                    assert(out@[c].alt_btc == i && out@[c].forward);
                    assert(out@[c + 1].alt_btc == i && !out@[c + 1].forward);
                    assert(covers(out@, i as int));
                    assert forall|ii: int| ii < i + 1 && #[trigger] is_alt_btc(pairs@, btc, usdt, ii)
                        implies covers(out@, ii) by {
                        if ii < i {
                            assert(covers(before, ii));
                            let c0 = choose|c0: int| 0 <= c0 < before.len() && (#[trigger] before[c0]).alt_btc == ii && before[c0].forward;
                            let d0 = choose|d0: int| 0 <= d0 < before.len() && (#[trigger] before[d0]).alt_btc == ii && !before[d0].forward;
                            assert(out@[c0] == before[c0]);
                            assert(out@[d0] == before[d0]);
                        }
                    }
                }
            } else {
                assert(!is_alt_btc(pairs@, btc, usdt, i as int));
            }
        } else {
            assert(!is_alt_btc(pairs@, btc, usdt, i as int));
        }
        i = i + 1;
    }
    out
}

/// Whether cycle `cy` trades symbol `s`.
pub open spec fn touches(cy: Cycle, s: usize) -> bool {
    cy.btc_usdt == s || cy.alt_btc == s || cy.alt_usdt == s
}

/// The detector: its settings, the monitored cycles, each symbol's rules,
/// and for each cycle the leg sequences of the last chance it emitted.
#[derive(Debug)]
pub struct Detector {
    pub config: DetectorConfig,
    pub cycles: Vec<Cycle>,
    pub rules: Vec<SymbolRules>,
    pub last_emitted: Vec<Option<(u64, u64, u64)>>,
}

impl Detector {
    pub open spec fn wf(&self) -> bool {
        &&& self.config.wf()
        &&& self.last_emitted@.len() == self.cycles@.len()
        &&& forall|c: int| 0 <= c < self.cycles@.len() ==> {
            let cy = #[trigger] self.cycles@[c];
            cy.btc_usdt < self.rules@.len() && cy.alt_btc < self.rules@.len() && cy.alt_usdt
                < self.rules@.len()
        }
        &&& forall|s: int| 0 <= s < self.rules@.len() ==> rules_wf(#[trigger] self.rules@[s])
    }

    /// The opportunity that cycle `ci` offers on the given quotes.
    pub open spec fn candidate(&self, ci: int, quotes: Seq<Quote>, now_ms: u64) -> Option<ChanceEvent> {
        let cy = self.cycles@[ci];
        cycle_chance(
            self.config,
            ci as usize,
            cy,
            self.rules@[cy.btc_usdt as int],
            self.rules@[cy.alt_btc as int],
            self.rules@[cy.alt_usdt as int],
            quotes[cy.btc_usdt as int],
            quotes[cy.alt_btc as int],
            quotes[cy.alt_usdt as int],
            now_ms,
        )
    }

    /// A detector that has emitted nothing yet.
    pub fn new(config: DetectorConfig, cycles: Vec<Cycle>, rules: Vec<SymbolRules>) -> (r: Detector)
        requires
            config.wf(),
            forall|c: int| 0 <= c < cycles@.len() ==> {
                let cy = #[trigger] cycles@[c];
                cy.btc_usdt < rules@.len() && cy.alt_btc < rules@.len() && cy.alt_usdt < rules@.len()
            },
            forall|s: int| 0 <= s < rules@.len() ==> rules_wf(#[trigger] rules@[s]),
        ensures
            r.wf(),
            r.config == config,
            r.cycles@ == cycles@,
            r.rules@ == rules@,
            forall|c: int| 0 <= c < r.last_emitted@.len() ==> (#[trigger] r.last_emitted@[c]).is_none(),
    {
        let mut last: Vec<Option<(u64, u64, u64)>> = Vec::new();
        let mut i: usize = 0;
        while i < cycles.len()
            invariant
                i <= cycles@.len(),
                last@.len() == i,
                forall|c: int| 0 <= c < i ==> (#[trigger] last@[c]).is_none(),
            decreases cycles@.len() - i,
        {
            last.push(None);
            i = i + 1;
        }
        Detector { config, cycles, rules, last_emitted: last }
    }

    /// Indices of the cycles that trade symbol `s`, ascending.
    pub fn cycles_for_symbol(&self, s: usize) -> (r: Vec<usize>)
        ensures
            forall|k: int| 0 <= k < r@.len() ==> r@[k] < self.cycles@.len() && touches(
                self.cycles@[r@[k] as int],
                s,
            ),
            forall|c: int|
                0 <= c < self.cycles@.len() && touches(#[trigger] self.cycles@[c], s) ==> r@.contains(
                    c as usize,
                ),
            forall|a: int, b: int| 0 <= a < b < r@.len() ==> r@[a] < r@[b],
    {
        let mut out: Vec<usize> = Vec::new();
        let mut c: usize = 0;
        while c < self.cycles.len()
            invariant
                c <= self.cycles@.len(),
                forall|k: int| 0 <= k < out@.len() ==> out@[k] < c && touches(
                    self.cycles@[out@[k] as int],
                    s,
                ),
                forall|cc: int| 0 <= cc < c && touches(#[trigger] self.cycles@[cc], s) ==> out@.contains(
                    cc as usize,
                ),
                forall|a: int, b: int| 0 <= a < b < out@.len() ==> out@[a] < out@[b],
            decreases self.cycles@.len() - c,
        {
            let cy = self.cycles[c];
            if cy.btc_usdt == s || cy.alt_btc == s || cy.alt_usdt == s {
                let ghost before = out@;
                out.push(c);
                proof {
                    assert forall|cc: int| 0 <= cc < c + 1 && touches(#[trigger] self.cycles@[cc], s)
                        implies out@.contains(cc as usize) by {
                        if cc < c {
                            assert(before.contains(cc as usize));
                            let k = choose|k: int| 0 <= k < before.len() && before[k] == cc as usize;
                            assert(out@[k] == cc as usize);
                        } else {
                            assert(out@[out@.len() - 1] == cc as usize);
                        }
                    }
                }
            }
            c = c + 1;
        }
        out
    }

    /// Re-evaluates cycle `ci` on the current quotes (indexed by symbol).
    /// A chance is emitted when the cycle offers one and none of its leg
    /// sequences equals that of the last chance emitted on this cycle; the
    /// emitted sequences are then remembered.
    pub fn evaluate(&mut self, ci: usize, quotes: &Vec<Quote>, now_ms: u64) -> (r: Option<ChanceEvent>)
        requires
            old(self).wf(),
            ci < old(self).cycles@.len(),
            quotes@.len() == old(self).rules@.len(),
            forall|s: int| 0 <= s < quotes@.len() ==> quote_wf(#[trigger] quotes@[s]),
        ensures
            final(self).wf(),
            final(self).config == old(self).config,
            final(self).cycles@ == old(self).cycles@,
            final(self).rules@ == old(self).rules@,
            r == (match old(self).candidate(ci as int, quotes@, now_ms) {
                Some(ev) => if fresh_against(old(self).last_emitted@[ci as int], ev) {
                    Some(ev)
                } else {
                    None
                },
                None => None,
            }),
            final(self).last_emitted@ == (match r {
                Some(ev) => old(self).last_emitted@.update(ci as int, Some(seq_triple(ev))),
                None => old(self).last_emitted@,
            }),
    {
        let cy = self.cycles[ci];
        let r_bu = self.rules[cy.btc_usdt];
        let r_ab = self.rules[cy.alt_btc];
        let r_au = self.rules[cy.alt_usdt];
        let cand = cycle_opportunity(
            &self.config,
            ci,
            cy,
            r_bu,
            r_ab,
            r_au,
            quotes[cy.btc_usdt],
            quotes[cy.alt_btc],
            quotes[cy.alt_usdt],
            now_ms,
        );
        match cand {
            None => None,
            Some(ev) => {
                let fresh = match self.last_emitted[ci] {
                    None => true,
                    Some(p) => ev.leg0.sequence != p.0 && ev.leg1.sequence != p.1
                        && ev.leg2.sequence != p.2,
                };
                if fresh {
                    self.last_emitted.set(
                        ci,
                        Some((ev.leg0.sequence, ev.leg1.sequence, ev.leg2.sequence)),
                    );
                    Some(ev)
                } else {
                    None
                }
            },
        }
    }
}

/// A chance that passes the emission rule never repeats the leg sequences
/// of the chance emitted before it on the same cycle.
pub proof fn lemma_emission_never_repeats(prev: (u64, u64, u64), ev: ChanceEvent)
    requires
        fresh_against(Some(prev), ev),
    ensures
        seq_triple(ev) != prev,
{
}

/// A cycle any of whose three books has an empty bid or ask side offers
/// no chance, whichever sides it trades against.
pub proof fn lemma_empty_side_no_chance(
    cfg: DetectorConfig,
    ci: usize,
    cy: Cycle,
    r_bu: SymbolRules,
    r_ab: SymbolRules,
    r_au: SymbolRules,
    bu: Quote,
    ab: Quote,
    au: Quote,
    now_ms: u64,
)
    requires
        bu.best_bid is None || bu.best_ask is None || ab.best_bid is None || ab.best_ask is None
            || au.best_bid is None || au.best_ask is None,
    ensures
        cycle_chance(cfg, ci, cy, r_bu, r_ab, r_au, bu, ab, au, now_ms) is None,
{
}

proof fn lemma_round_down_positive(q: int, inc: int)
    requires
        q >= 0,
        inc >= 1,
        round_down(q, inc) > 0,
    ensures
        round_down(q, inc) >= inc,
        round_down(q, inc) % inc == 0,
{
    assert(round_down(q, inc) >= inc && round_down(q, inc) % inc == 0) by (nonlinear_arith)
        requires q >= 0, inc >= 1, q - q % inc > 0;
}

/// Every leg of a chance is a whole, nonzero number of its symbol's base
/// increments, at least the minimum size: a level that rounds below one
/// increment yields no chance.
pub proof fn lemma_chance_legs_whole_increments(
    cfg: DetectorConfig,
    ci: usize,
    cy: Cycle,
    r_bu: SymbolRules,
    r_ab: SymbolRules,
    r_au: SymbolRules,
    bu: Quote,
    ab: Quote,
    au: Quote,
    now_ms: u64,
)
    requires
        rules_wf(r_bu),
        rules_wf(r_ab),
        rules_wf(r_au),
        quote_wf(bu),
        quote_wf(ab),
        quote_wf(au),
    ensures
        cycle_chance(cfg, ci, cy, r_bu, r_ab, r_au, bu, ab, au, now_ms) matches Some(ev) ==> {
            let (r0, r1, r2) = if cy.forward { (r_bu, r_ab, r_au) } else { (r_au, r_ab, r_bu) };
            &&& ev.leg0.size >= r0.base_increment && ev.leg0.size % r0.base_increment == 0
            &&& ev.leg1.size >= r1.base_increment && ev.leg1.size % r1.base_increment == 0
            &&& ev.leg2.size >= r2.base_increment && ev.leg2.size % r2.base_increment == 0
            &&& ev.leg0.size >= r0.min_size && ev.leg1.size >= r1.min_size && ev.leg2.size >= r2.min_size
        },
{
    if let Some(ev) = cycle_chance(cfg, ci, cy, r_bu, r_ab, r_au, bu, ab, au, now_ms) {
        if cy.forward {
            let a_bu = bu.best_ask.unwrap();
            let a_ab = ab.best_ask.unwrap();
            let b_au = au.best_bid.unwrap();
            let n = forward_notional(cfg.notional_ceiling as int, a_bu, a_ab, b_au);
            let m0 = min2(n * PRICE_SCALE / a_bu.price as int, a_bu.size as int);
            let q0 = round_down(m0, r_bu.base_increment as int);
            let m1 = min2(q0 * PRICE_SCALE / a_ab.price as int, a_ab.size as int);
            let q1 = round_down(m1, r_ab.base_increment as int);
            let m2 = min2(q1, b_au.size as int);
            let q2 = round_down(m2, r_au.base_increment as int);
            assert(0 <= q0 <= m0 <= MAX_SIZE) by {
                assert(n * PRICE_SCALE / a_bu.price as int >= 0) by (nonlinear_arith)
                    requires n >= 0, a_bu.price >= 1;
                assert(q0 <= m0) by (nonlinear_arith)
                    requires q0 == m0 - m0 % (r_bu.base_increment as int), m0 >= 0, r_bu.base_increment >= 1;
                assert(q0 >= 0) by (nonlinear_arith)
                    requires q0 == m0 - m0 % (r_bu.base_increment as int), m0 >= 0, r_bu.base_increment >= 1;
                lemma_forward_notional_nonneg(cfg.notional_ceiling as int, a_bu, a_ab, b_au);
            }
            assert(0 <= q1 <= MAX_SIZE) by {
                assert(q0 * PRICE_SCALE / a_ab.price as int >= 0) by (nonlinear_arith)
                    requires q0 >= 0, a_ab.price >= 1;
                assert(0 <= q1 <= m1) by (nonlinear_arith)
                    requires q1 == m1 - m1 % (r_ab.base_increment as int), m1 >= 0, r_ab.base_increment >= 1;
            }
            assert(0 <= q2 <= MAX_SIZE) by {
                assert(0 <= q2 <= m2) by (nonlinear_arith)
                    requires q2 == m2 - m2 % (r_au.base_increment as int), m2 >= 0, r_au.base_increment >= 1;
            }
            lemma_round_down_positive(m0, r_bu.base_increment as int);
            lemma_round_down_positive(m1, r_ab.base_increment as int);
            lemma_round_down_positive(m2, r_au.base_increment as int);
        } else {
            let a_au = au.best_ask.unwrap();
            let b_ab = ab.best_bid.unwrap();
            let b_bu = bu.best_bid.unwrap();
            let n = reverse_notional(cfg.notional_ceiling as int, a_au, b_ab, b_bu);
            let m0 = min2(n * PRICE_SCALE / a_au.price as int, a_au.size as int);
            let q0 = round_down(m0, r_au.base_increment as int);
            let m1 = min2(q0, b_ab.size as int);
            let q1 = round_down(m1, r_ab.base_increment as int);
            let m2 = min2(value(q1, b_ab.price as int), b_bu.size as int);
            let q2 = round_down(m2, r_bu.base_increment as int);
            assert(0 <= q0 <= m0 <= MAX_SIZE) by {
                lemma_reverse_notional_nonneg(cfg.notional_ceiling as int, a_au, b_ab, b_bu);
                assert(n * PRICE_SCALE / a_au.price as int >= 0) by (nonlinear_arith)
                    requires n >= 0, a_au.price >= 1;
                assert(0 <= q0 <= m0) by (nonlinear_arith)
                    requires q0 == m0 - m0 % (r_au.base_increment as int), m0 >= 0, r_au.base_increment >= 1;
            }
            assert(0 <= q1 <= m1 <= MAX_SIZE) by {
                assert(0 <= q1 <= m1) by (nonlinear_arith)
                    requires q1 == m1 - m1 % (r_ab.base_increment as int), m1 >= 0, r_ab.base_increment >= 1;
            }
            assert(0 <= q2 <= MAX_SIZE) by {
                assert(value(q1, b_ab.price as int) >= 0) by (nonlinear_arith)
                    requires q1 >= 0, b_ab.price >= 1;
                assert(0 <= q2 <= m2) by (nonlinear_arith)
                    requires q2 == m2 - m2 % (r_bu.base_increment as int), m2 >= 0, r_bu.base_increment >= 1;
            }
            lemma_round_down_positive(m0, r_au.base_increment as int);
            lemma_round_down_positive(m1, r_ab.base_increment as int);
            lemma_round_down_positive(m2, r_bu.base_increment as int);
        }
    }
}

proof fn lemma_forward_notional_nonneg(ceiling: int, a: Level, b: Level, c: Level)
    requires
        ceiling >= 0,
    ensures
        forward_notional(ceiling, a, b, c) >= 0,
{
    assert(value(a.size as int, a.price as int) >= 0) by (nonlinear_arith);
    assert(value(b.size as int, b.price as int) >= 0) by (nonlinear_arith);
    assert(value(value(b.size as int, b.price as int), a.price as int) >= 0) by (nonlinear_arith)
        requires value(b.size as int, b.price as int) >= 0;
    assert(value(c.size as int, c.price as int) >= 0) by (nonlinear_arith);
}

proof fn lemma_reverse_notional_nonneg(ceiling: int, a: Level, b: Level, c: Level)
    requires
        ceiling >= 0,
    ensures
        reverse_notional(ceiling, a, b, c) >= 0,
{
    assert(value(a.size as int, a.price as int) >= 0) by (nonlinear_arith);
    assert(value(b.size as int, b.price as int) >= 0) by (nonlinear_arith);
    assert(value(value(b.size as int, b.price as int), c.price as int) >= 0) by (nonlinear_arith)
        requires value(b.size as int, b.price as int) >= 0;
    assert(value(c.size as int, c.price as int) >= 0) by (nonlinear_arith);
}

proof fn lemma_first_leg_increases(h: Seq<ChanceEvent>, i: int, j: int)
    requires
        0 <= i < j < h.len(),
        forall|k: int|
            0 < k < h.len() ==> fresh_against(Some(seq_triple(h[k - 1])), #[trigger] h[k])
                && h[k - 1].leg0.sequence <= h[k].leg0.sequence,
    ensures
        h[i].leg0.sequence < h[j].leg0.sequence,
    decreases j - i,
{
    assert(fresh_against(Some(seq_triple(h[j - 1])), h[j]));
    if i < j - 1 {
        lemma_first_leg_increases(h, i, j - 1);
    }
}

/// The chances emitted on one cycle, in order, never repeat a sequence
/// triple: each passed the emission rule against the one before it, and
/// the sequences of a symbol's book only grow.
pub proof fn lemma_emissions_distinct(h: Seq<ChanceEvent>)
    requires
        forall|k: int|
            0 < k < h.len() ==> fresh_against(Some(seq_triple(h[k - 1])), #[trigger] h[k])
                && h[k - 1].leg0.sequence <= h[k].leg0.sequence,
    ensures
        forall|i: int, j: int| 0 <= i < j < h.len() ==> seq_triple(#[trigger] h[i]) != seq_triple(#[trigger] h[j]),
{
    assert forall|i: int, j: int| 0 <= i < j < h.len() implies seq_triple(#[trigger] h[i]) != seq_triple(#[trigger] h[j]) by {
        lemma_first_leg_increases(h, i, j);
    }
}

/// Indices, ascending, of the symbols quoted in BTC or in USDT.
pub fn symbols_in_scope(pairs: &Vec<SymbolPair>, btc: u32, usdt: u32) -> (r: Vec<usize>)
    ensures
        forall|k: int| 0 <= k < r@.len() ==> r@[k] < pairs@.len() && (pairs@[r@[k] as int].quote == btc
            || pairs@[r@[k] as int].quote == usdt),
        forall|i: int|
            0 <= i < pairs@.len() && ((#[trigger] pairs@[i]).quote == btc || pairs@[i].quote == usdt)
                ==> r@.contains(i as usize),
        forall|a: int, b: int| 0 <= a < b < r@.len() ==> r@[a] < r@[b],
{
    let mut out: Vec<usize> = Vec::new();
    let mut i: usize = 0;
    while i < pairs.len()
        invariant
            i <= pairs@.len(),
            forall|k: int| 0 <= k < out@.len() ==> out@[k] < i && (pairs@[out@[k] as int].quote == btc
                || pairs@[out@[k] as int].quote == usdt),
            forall|ii: int|
                0 <= ii < i && ((#[trigger] pairs@[ii]).quote == btc || pairs@[ii].quote == usdt)
                    ==> out@.contains(ii as usize),
            forall|a: int, b: int| 0 <= a < b < out@.len() ==> out@[a] < out@[b],
        decreases pairs@.len() - i,
    {
        let q = pairs[i].quote;
        if q == btc || q == usdt {
            let ghost before = out@;
            out.push(i);
            proof {
                assert forall|ii: int|
                    0 <= ii < i + 1 && ((#[trigger] pairs@[ii]).quote == btc || pairs@[ii].quote == usdt)
                    implies out@.contains(ii as usize) by {
                    if ii < i {
                        assert(before.contains(ii as usize));
                        let k = choose|k: int| 0 <= k < before.len() && before[k] == ii as usize;
                        assert(out@[k] == ii as usize);
                    } else {
                        assert(out@[out@.len() - 1] == ii as usize);
                    }
                }
            }
        }
        i = i + 1;
    }
    out
}

} // verus!
