//! Three-leg order placement: client order ids and per-leg error handling.
use vstd::prelude::*;
use crate::gatekeeper::{LegState, OrderChangeEvent, OrderEvent};

verus! {

/// Retries allowed after a transient transport error on one leg.
pub const MAX_RETRIES: u32 = 2;

/// Wait before a retry, in milliseconds.
pub const RETRY_BACKOFF_MS: u64 = 50;

/// Lower-case hexadecimal digit of `n`, as an ASCII byte.
pub open spec fn hex_digit(n: u8) -> u8 {
    if n < 10 { (48 + n) as u8 } else { (87 + n) as u8 }
}

/// Nibble `d` of `x`, counting from the most significant.
pub open spec fn nibble(x: u128, d: int) -> u8 {
    ((x >> ((124 - 4 * d) as u128)) & 0xF) as u8
}

/// Index of the hex digit shown at position `i` of the canonical text.
pub open spec fn digit_at(i: int) -> int {
    if i < 8 {
        i
    } else if i < 13 {
        i - 1
    } else if i < 18 {
        i - 2
    } else if i < 23 {
        i - 3
    } else {
        i - 4
    }
}

/// Whether position `i` of the canonical text holds a hyphen.
pub open spec fn is_hyphen_pos(i: int) -> bool {
    i == 8 || i == 13 || i == 18 || i == 23
}

/// Canonical text of a 128-bit id: 32 lower-case hex digits, most
/// significant first, grouped 8-4-4-4-12 by hyphens.
pub open spec fn canonical_id(x: u128) -> Seq<u8> {
    Seq::new(
        36,
        |i: int|
            if is_hyphen_pos(i) {
                45u8
            } else {
                hex_digit(nibble(x, digit_at(i)))
            },
    )
}

/// Client order id of leg `leg` of the order with root `x`: the root's
/// canonical text, a hyphen and the leg's digit.
pub open spec fn client_id_spec(x: u128, leg: u8) -> Seq<u8> {
    canonical_id(x).push(45u8).push((48 + leg) as u8)
}

/// Canonical text of a 128-bit id, as ASCII bytes.
pub fn canonical_id_text(x: u128) -> (r: Vec<u8>)
    ensures
        r@ == canonical_id(x),
{
    let mut out: Vec<u8> = Vec::new();
    let mut i: usize = 0;
    let mut d: u32 = 0;
    while i < 36
        invariant
            i <= 36,
            out@.len() == i,
            forall|k: int| 0 <= k < i ==> out@[k] == canonical_id(x)[k],
            d as int == digit_count(i as int),
        decreases 36 - i,
    {
        if i == 8 || i == 13 || i == 18 || i == 23 {
            out.push(45u8);
        } else {
            let shift: u32 = 124 - 4 * d;
            let n: u8 = ((x >> shift) & 0xF) as u8;
            assert(n < 16) by (bit_vector)
                requires n == ((x >> shift) & 0xF) as u8;
            let c: u8 = if n < 10 { 48 + n } else { 87 + n };
            out.push(c);
            d = d + 1;
        }
        i = i + 1;
    }
    assert(out@ =~= canonical_id(x));
    out
}

/// Number of hex digits among the first `i` positions of the canonical text.
pub open spec fn digit_count(i: int) -> int {
    if i <= 8 {
        i
    } else if i <= 13 {
        i - 1
    } else if i <= 18 {
        i - 2
    } else if i <= 23 {
        i - 3
    } else {
        i - 4
    }
}

/// Client order id of leg `leg` of the order with correlation id `x`.
pub fn client_order_id(x: u128, leg: u8) -> (r: Vec<u8>)
    requires
        leg < 3,
    ensures
        r@ == client_id_spec(x, leg),
{
    let mut out = canonical_id_text(x);
    out.push(45u8);
    out.push(48u8 + leg);
    out
}

/// One limit order to place: a leg of a committed order.
#[derive(Debug)]
pub struct LegRequest {
    pub client_id: Vec<u8>,
    pub leg: u8,
    pub symbol: usize,
    pub buy: bool,
    pub price: u64,
    pub size: u64,
}

/// The three limit orders of a committed order, leg by leg.
pub fn leg_requests(order: &OrderEvent) -> (r: Vec<LegRequest>)
    ensures
        r@.len() == 3,
        forall|k: int| 0 <= k < 3 ==> (#[trigger] r@[k]).client_id@ == client_id_spec(order.correlation, k as u8)
            && r@[k].leg == k as u8,
        r@[0].symbol == order.leg0.symbol && r@[0].buy == order.leg0.buy && r@[0].price
            == order.leg0.price && r@[0].size == order.leg0.size,
        r@[1].symbol == order.leg1.symbol && r@[1].buy == order.leg1.buy && r@[1].price
            == order.leg1.price && r@[1].size == order.leg1.size,
        r@[2].symbol == order.leg2.symbol && r@[2].buy == order.leg2.buy && r@[2].price
            == order.leg2.price && r@[2].size == order.leg2.size,
{
    let mut out: Vec<LegRequest> = Vec::new();
    out.push(
        LegRequest {
            client_id: client_order_id(order.correlation, 0),
            leg: 0,
            symbol: order.leg0.symbol,
            buy: order.leg0.buy,
            price: order.leg0.price,
            size: order.leg0.size,
        },
    );
    out.push(
        LegRequest {
            client_id: client_order_id(order.correlation, 1),
            leg: 1,
            symbol: order.leg1.symbol,
            buy: order.leg1.buy,
            price: order.leg1.price,
            size: order.leg1.size,
        },
    );
    out.push(
        LegRequest {
            client_id: client_order_id(order.correlation, 2),
            leg: 2,
            symbol: order.leg2.symbol,
            buy: order.leg2.buy,
            price: order.leg2.price,
            size: order.leg2.size,
        },
    );
    out
}

/// Outcome of one placement call.
#[derive(Debug, Clone, Copy, PartialEq, Eq, Structural)]
pub enum PlaceResult {
    /// The exchange accepted the order.
    Accepted,
    /// Network failure, timeout or server error: worth retrying.
    Transient,
    /// The exchange refused the order (balance, price band, minimum
    /// notional): never retried.
    Rejected,
}

/// What to do next with a leg.
#[derive(Debug, Clone, Copy)]
pub enum LegAction {
    /// Place the leg again after `delay_ms`.
    Retry { delay_ms: u64 },
    /// Give the leg up and report it cancelled to the gatekeeper.
    Report(OrderChangeEvent),
    /// Nothing more: the private order feed reports the leg's states.
    Finished,
}

/// Decides what follows placement attempt number `attempt` (counting from
/// zero) of leg `leg` of the order `correlation`, given its result. A
/// transient failure is retried while fewer than two retries have been
/// made; a refusal, or a transient failure once retries are spent, is
/// reported as a cancelled leg; an accepted leg needs nothing more.
pub fn next_leg_action(correlation: u128, leg: usize, size: u64, attempt: u32, result: PlaceResult) -> (r: LegAction)
    ensures
        r == (match result {
            PlaceResult::Accepted => LegAction::Finished,
            PlaceResult::Transient => if attempt < MAX_RETRIES {
                LegAction::Retry { delay_ms: RETRY_BACKOFF_MS }
            } else {
                LegAction::Report(
                    OrderChangeEvent {
                        correlation,
                        leg,
                        state: LegState::Canceled,
                        filled: 0,
                        remaining: size,
                    },
                )
            },
            PlaceResult::Rejected => LegAction::Report(
                OrderChangeEvent { correlation, leg, state: LegState::Canceled, filled: 0, remaining: size },
            ),
        }),
{
    let cancel = OrderChangeEvent {
        correlation,
        leg,
        state: LegState::Canceled,
        filled: 0,
        remaining: size,
    };
    match result {
        PlaceResult::Accepted => LegAction::Finished,
        PlaceResult::Transient => {
            if attempt < MAX_RETRIES {
                LegAction::Retry { delay_ms: RETRY_BACKOFF_MS }
            } else {
                LegAction::Report(cancel)
            }
        },
        PlaceResult::Rejected => LegAction::Report(cancel),
    }
}

} // verus!
