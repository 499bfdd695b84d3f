//! Partitioning of the monitored symbols into websocket subscriptions.
use vstd::prelude::*;

verus! {

/// Most symbols one order-book topic may carry.
pub const MAX_TOPIC_SYMBOLS: usize = 100;

/// Topics carried by one websocket session.
pub const TOPICS_PER_SESSION: usize = 3;

/// Index of the first symbol of topic `i`. The first topic carries one
/// symbol fewer than the others, which leaves room for `BTC-USDT`.
pub open spec fn topic_start(i: int) -> int {
    if i <= 0 { 0 } else { 100 * i - 1 }
}

/// Index one past the last symbol of topic `i`, among `n` symbols.
pub open spec fn topic_end(i: int, n: int) -> int {
    if topic_start(i + 1) < n { topic_start(i + 1) } else { n }
}

/// Number of topics needed for `n` symbols.
pub open spec fn topic_count(n: int) -> int {
    if n <= 0 { 0 } else { 1 + n / 100 }
}

/// The symbols of topic `i`.
pub open spec fn topic(symbols: Seq<String>, i: int) -> Seq<String> {
    symbols.subrange(topic_start(i), topic_end(i, symbols.len() as int))
}

proof fn lemma_topic_bounds(i: int, n: int)
    requires
        0 <= i < topic_count(n),
    ensures
        0 <= topic_start(i) < topic_end(i, n) <= n,
{
    assert(n >= 1);
    if i > 0 {
        assert(100 * i <= n) by (nonlinear_arith)
            requires i < 1 + n / 100, n >= 1, i >= 1;
    }
}

proof fn lemma_topic_end(t: int, n: int)
    requires
        0 <= t < topic_count(n),
    ensures
        t + 1 == topic_count(n) ==> topic_end(t, n) == n,
        t + 1 < topic_count(n) ==> 100 * (t + 1) <= n && topic_end(t, n) == 100 * (t + 1) - 1,
{
    assert(n >= 1);
    if t + 1 == topic_count(n) {
        assert(100 * (t + 1) - 1 >= n) by (nonlinear_arith)
            requires t + 1 == 1 + n / 100, n >= 1;
    } else {
        assert(100 * (t + 1) <= n) by (nonlinear_arith)
            requires t + 1 < 1 + n / 100, n >= 1, t >= 0;
    }
}

/// Number of topics in session `s`, among `t` topics: three, but for a
/// last session that takes what is left.
pub open spec fn session_len(t: int, s: int) -> int {
    if t - 3 * s < 3 { t - 3 * s } else { 3 }
}

/// Splits `symbols` into topics (99 symbols in the first, 100 in each of the
/// others) and groups the topics three to a session, the last session
/// taking the one or two topics left over. Every symbol lands in exactly
/// one topic, in order.
pub fn format_subscription_list(symbols: &Vec<String>) -> (subs: Vec<Vec<Vec<String>>>)
    ensures
        subs@.len() == (topic_count(symbols@.len() as int) + 2) / 3,
        forall|s: int|
            0 <= s < subs@.len() ==> (#[trigger] subs@[s])@.len() == session_len(
                topic_count(symbols@.len() as int),
                s,
            ),
        forall|s: int, j: int|
            0 <= s < subs@.len() && 0 <= j < subs@[s]@.len() ==> (#[trigger] subs@[s]@[j])@ == topic(
                symbols@,
                3 * s + j,
            ),
{
    let n = symbols.len();
    let n_topics: usize = if n == 0 { 0 } else { 1 + n / MAX_TOPIC_SYMBOLS };
    let n_sessions: usize = (n_topics + 2) / TOPICS_PER_SESSION;
    let mut subs: Vec<Vec<Vec<String>>> = Vec::new();
    let mut s: usize = 0;
    while s < n_sessions
        invariant
            n == symbols@.len(),
            n_topics == topic_count(n as int),
            n_sessions == (n_topics + 2) / 3,
            s <= n_sessions,
            subs@.len() == s,
            forall|k: int| 0 <= k < s ==> (#[trigger] subs@[k])@.len() == session_len(n_topics as int, k),
            forall|k: int, j: int|
                0 <= k < s && 0 <= j < subs@[k]@.len() ==> (#[trigger] subs@[k]@[j])@ == topic(
                    symbols@,
                    3 * k + j,
                ),
        decreases n_sessions - s,
    {
        let left: usize = n_topics - TOPICS_PER_SESSION * s;
        let width: usize = if left < TOPICS_PER_SESSION { left } else { TOPICS_PER_SESSION };
        let mut session: Vec<Vec<String>> = Vec::new();
        let mut j: usize = 0;
        while j < width
            invariant
                n == symbols@.len(),
                n_topics == topic_count(n as int),
                n_sessions == (n_topics + 2) / 3,
                s < n_sessions,
                width == session_len(n_topics as int, s as int),
                3 * s + width <= n_topics,
                j <= width,
                session@.len() == j,
                forall|jj: int| 0 <= jj < j ==> (#[trigger] session@[jj])@ == topic(
                    symbols@,
                    3 * s + jj,
                ),
            decreases width - j,
        {
            let t: usize = TOPICS_PER_SESSION * s + j;
            proof {
                lemma_topic_bounds(t as int, n as int);
            }
            let lo: usize = if t == 0 { 0 } else { MAX_TOPIC_SYMBOLS * t - 1 };
            proof {
                lemma_topic_end(t as int, n as int);
            }
            let hi: usize = if t + 1 == n_topics { n } else { MAX_TOPIC_SYMBOLS * (t + 1) - 1 };
            let mut names: Vec<String> = Vec::new();
            let mut i: usize = lo;
            while i < hi
                invariant
                    lo <= i <= hi <= n,
                    n == symbols@.len(),
                    names@ == symbols@.subrange(lo as int, i as int),
                decreases hi - i,
            {
                names.push(symbols[i].clone());
                i = i + 1;
            }
            session.push(names);
            j = j + 1;
        }
        subs.push(session);
        s = s + 1;
    }
    subs
}

} // verus!
