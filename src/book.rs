//! Local order books: each side an ascending list of price levels.
use vstd::prelude::*;

verus! {

/// Largest price, in ticks, that a level may carry (about 2.8 million
/// units).
pub const MAX_TICKS: u64 = 0xFFFF_FFFF_FFFF;

/// Largest size, in ticks, that a level may carry (about 1.4 billion
/// units).
pub const MAX_SIZE: u64 = 0x1FF_FFFF_FFFF_FFFF;

/// One price level: a price and the cumulative size resting at it, both in
/// ticks of a fixed-precision decimal. A size of zero in an update removes
/// the level.
#[derive(Debug, Clone, Copy)]
pub struct Level {
    pub price: u64,
    pub size: u64,
}

/// Whether a level's price and size lie in the representable range.
pub open spec fn level_in_range(l: Level) -> bool {
    1 <= l.price <= MAX_TICKS && l.size <= MAX_SIZE
}

/// Prices strictly increase along `s`.
pub open spec fn ascending(s: Seq<Level>) -> bool {
    forall|i: int, j: int| 0 <= i < j < s.len() ==> s[i].price < s[j].price
}

/// A well-formed side: ascending, no zero-size level, every level in range.
pub open spec fn side_wf(s: Seq<Level>) -> bool {
    &&& ascending(s)
    &&& forall|i: int| 0 <= i < s.len() ==> (#[trigger] s[i]).size > 0 && level_in_range(s[i])
}

/// Whether some level of `s` sits at price `p`.
pub open spec fn has_price(s: Seq<Level>, p: u64) -> bool {
    exists|i: int| 0 <= i < s.len() && (#[trigger] s[i]).price == p
}

/// The price-to-size mapping that a list of levels holds.
pub open spec fn levels_map(s: Seq<Level>) -> Map<u64, u64> {
    Map::new(
        |p: u64| has_price(s, p),
        |p: u64| s[choose|i: int| 0 <= i < s.len() && (#[trigger] s[i]).price == p].size,
    )
}

/// The mapping after one level change: erase on size zero, else insert.
pub open spec fn set_level_map(m: Map<u64, u64>, l: Level) -> Map<u64, u64> {
    if l.size == 0 {
        m.remove(l.price)
    } else {
        m.insert(l.price, l.size)
    }
}

/// The mapping after a list of level changes, applied in order.
pub open spec fn apply_changes(m: Map<u64, u64>, changes: Seq<Level>) -> Map<u64, u64>
    decreases changes.len(),
{
    if changes.len() == 0 {
        m
    } else {
        set_level_map(apply_changes(m, changes.drop_last()), changes.last())
    }
}

/// Every level of an ascending list appears in its mapping with its size.
pub proof fn lemma_levels_map_index(s: Seq<Level>, i: int)
    requires
        ascending(s),
        0 <= i < s.len(),
    ensures
        levels_map(s).contains_key(s[i].price),
        levels_map(s)[s[i].price] == s[i].size,
{
    let p = s[i].price;
    assert(has_price(s, p));
    let k = choose|k: int| 0 <= k < s.len() && (#[trigger] s[k]).price == p;
    if k < i {
        assert(s[k].price < s[i].price);
    } else if k > i {
        assert(s[i].price < s[k].price);
    }
}

/// An ascending list whose levels are exactly the entries of `m` holds `m`.
pub proof fn lemma_levels_map_eq(t: Seq<Level>, m: Map<u64, u64>)
    requires
        ascending(t),
        forall|i: int|
            0 <= i < t.len() ==> m.contains_key((#[trigger] t[i]).price) && m[t[i].price]
                == t[i].size,
        forall|p: u64| #[trigger] m.contains_key(p) ==> has_price(t, p),
    ensures
        levels_map(t) =~= m,
{
    assert forall|p: u64| #[trigger] levels_map(t).contains_key(p) implies m.contains_key(p)
        && levels_map(t)[p] == m[p] by {
        let i = choose|i: int| 0 <= i < t.len() && (#[trigger] t[i]).price == p;
        lemma_levels_map_index(t, i);
    }
}

/// One side of a book, kept in ascending price order. On the ask side the
/// best level is the first, on the bid side the last.
#[derive(Debug)]
pub struct Side {
    pub levels: Vec<Level>,
}

impl View for Side {
    type V = Map<u64, u64>;

    open spec fn view(&self) -> Map<u64, u64> {
        levels_map(self.levels@)
    }
}

impl Side {
    pub open spec fn wf(&self) -> bool {
        side_wf(self.levels@)
    }

    /// An empty side.
    pub fn new() -> (r: Side)
        ensures
            r.wf(),
            r.levels@.len() == 0,
            r@ == Map::<u64, u64>::empty(),
    {
        let r = Side { levels: Vec::new() };
        assert(r@ =~= Map::<u64, u64>::empty());
        r
    }

    /// Number of levels.
    pub fn len(&self) -> (r: usize)
        ensures
            r == self.levels@.len(),
    {
        self.levels.len()
    }

    /// The lowest-priced level, if any.
    pub fn lowest(&self) -> (r: Option<Level>)
        ensures
            r == (if self.levels@.len() == 0 {
                None::<Level>
            } else {
                Some(self.levels@[0])
            }),
    {
        if self.levels.len() == 0 {
            None
        } else {
            Some(self.levels[0])
        }
    }

    /// The highest-priced level, if any.
    pub fn highest(&self) -> (r: Option<Level>)
        ensures
            r == (if self.levels@.len() == 0 {
                None::<Level>
            } else {
                Some(self.levels@.last())
            }),
    {
        let n = self.levels.len();
        if n == 0 {
            None
        } else {
            Some(self.levels[n - 1])
        }
    }
    /// Applies one level change: a zero size erases the level at that price,
    /// any other size sets it.
    pub fn set_level(&mut self, l: Level)
        requires
            old(self).wf(),
            level_in_range(l),
        ensures
            final(self).wf(),
            final(self)@ == set_level_map(old(self)@, l),
    {
        let n = self.levels.len();
        let mut i: usize = 0;
        while i < n && self.levels[i].price < l.price
            invariant
                i <= n,
                n == self.levels@.len(),
                forall|k: int| 0 <= k < i ==> (#[trigger] self.levels@[k]).price < l.price,
            decreases n - i,
        {
            i = i + 1;
        }
        let ghost s = self.levels@;
        let ghost m = set_level_map(levels_map(s), l);
        assert forall|k: int| 0 <= k < s.len() implies levels_map(s).contains_key(
            (#[trigger] s[k]).price,
        ) && levels_map(s)[s[k].price] == s[k].size by {
            lemma_levels_map_index(s, k);
        }
        assert(forall|k: int| i <= k < s.len() ==> (#[trigger] s[k]).price >= l.price) by {
            assert forall|k: int| i <= k < s.len() implies (#[trigger] s[k]).price >= l.price by {
                if k > i {
                    assert(s[i as int].price < s[k].price);
                }
            }
        }
        if i < n && self.levels[i].price == l.price {
            if l.size == 0 {
                self.levels.remove(i);
                let ghost t = self.levels@;
                assert forall|p: u64| #[trigger] m.contains_key(p) implies has_price(t, p) by {
                    let k = choose|k: int| 0 <= k < s.len() && (#[trigger] s[k]).price == p;
                    if k < i {
                        assert(t[k].price == p);
                    } else {
                        assert(t[k - 1].price == p);
                    }
                }
                proof {
                    lemma_levels_map_eq(t, m);
                }
            } else {
                self.levels.set(i, l);
                let ghost t = self.levels@;
                assert forall|p: u64| #[trigger] m.contains_key(p) implies has_price(t, p) by {
                    if p != l.price {
                        let k = choose|k: int| 0 <= k < s.len() && (#[trigger] s[k]).price == p;
                        assert(t[k].price == p);
                    } else {
                        assert(t[i as int].price == p);
                    }
                }
                proof {
                    lemma_levels_map_eq(t, m);
                }
            }
        } else {
            assert(!has_price(s, l.price));
            if l.size > 0 {
                self.levels.insert(i, l);
                let ghost t = self.levels@;
                assert forall|a: int, b: int| 0 <= a < b < t.len() implies t[a].price
                    < t[b].price by {
                    if b < i {
                    } else if b == i {
                    } else if a < i {
                        assert(t[b] == s[b - 1]);
                    } else if a == i {
                        assert(t[b] == s[b - 1]);
                    } else {
                        assert(t[a] == s[a - 1]);
                        assert(t[b] == s[b - 1]);
                    }
                }
                assert forall|p: u64| #[trigger] m.contains_key(p) implies has_price(t, p) by {
                    if p != l.price {
                        let k = choose|k: int| 0 <= k < s.len() && (#[trigger] s[k]).price == p;
                        if k < i {
                            assert(t[k].price == p);
                        } else {
                            assert(t[k + 1].price == p);
                        }
                    } else {
                        assert(t[i as int].price == p);
                    }
                }
                proof {
                    lemma_levels_map_eq(t, m);
                }
            } else {
                assert(m =~= levels_map(s));
            }
        }
    }
    /// Applies a list of level changes in order.
    pub fn apply_changes(&mut self, changes: &Vec<Level>)
        requires
            old(self).wf(),
            forall|i: int| 0 <= i < changes@.len() ==> level_in_range(#[trigger] changes@[i]),
        ensures
            final(self).wf(),
            final(self)@ == apply_changes(old(self)@, changes@),
    {
        let ghost m0 = self@;
        let mut i: usize = 0;
        while i < changes.len()
            invariant
                i <= changes@.len(),
                self.wf(),
                self@ == apply_changes(m0, changes@.subrange(0, i as int)),
                forall|k: int| 0 <= k < changes@.len() ==> level_in_range(#[trigger] changes@[k]),
            decreases changes@.len() - i,
        {
            self.set_level(changes[i]);
            assert(changes@.subrange(0, i + 1).drop_last() =~= changes@.subrange(0, i as int));
            i = i + 1;
        }
        assert(changes@.subrange(0, changes@.len() as int) =~= changes@);
    }
}

/// Whether every level of `s` lies in the representable range.
pub open spec fn all_in_range(s: Seq<Level>) -> bool {
    forall|i: int| 0 <= i < s.len() ==> level_in_range(#[trigger] s[i])
}

/// What a book holds: its sequence and the two price-to-size mappings.
pub struct BookView {
    pub sequence: u64,
    pub bids: Map<u64, u64>,
    pub asks: Map<u64, u64>,
}

/// An order-book update: level changes on both sides, covering the sequence
/// numbers `from_seq` to `to_seq`.
#[derive(Debug, Clone)]
pub struct Delta {
    pub symbol: usize,
    pub from_seq: u64,
    pub to_seq: u64,
    pub bids: Vec<Level>,
    pub asks: Vec<Level>,
}

impl Delta {
    pub open spec fn wf(&self) -> bool {
        &&& self.from_seq <= self.to_seq
        &&& all_in_range(self.bids@)
        &&& all_in_range(self.asks@)
    }
}

/// Whether `d` continues a book at sequence `seq` without a gap.
pub open spec fn continues(seq: u64, d: Delta) -> bool {
    d.from_seq <= seq + 1 <= d.to_seq
}

/// The book after applying a delta that continues it.
pub open spec fn apply_delta_view(b: BookView, d: Delta) -> BookView {
    BookView {
        sequence: d.to_seq,
        bids: apply_changes(b.bids, d.bids@),
        asks: apply_changes(b.asks, d.asks@),
    }
}

/// Best bid and best ask of a book.
#[derive(Debug, Clone, Copy)]
pub struct TopOfBook {
    pub best_bid: Option<Level>,
    pub best_ask: Option<Level>,
}

/// The book of one symbol.
#[derive(Debug)]
pub struct Orderbook {
    pub sequence: u64,
    pub bids: Side,
    pub asks: Side,
}

impl View for Orderbook {
    type V = BookView;

    open spec fn view(&self) -> BookView {
        BookView { sequence: self.sequence, bids: self.bids@, asks: self.asks@ }
    }
}

impl Orderbook {
    pub open spec fn wf(&self) -> bool {
        self.bids.wf() && self.asks.wf()
    }

    /// The top of this book: its highest bid and lowest ask.
    pub open spec fn top_spec(&self) -> TopOfBook {
        TopOfBook {
            best_bid: if self.bids.levels@.len() == 0 {
                None
            } else {
                Some(self.bids.levels@.last())
            },
            best_ask: if self.asks.levels@.len() == 0 {
                None
            } else {
                Some(self.asks.levels@[0])
            },
        }
    }

    /// A book built from a snapshot taken at sequence `sequence`; levels of
    /// size zero are left out and a later level at the same price wins.
    pub fn from_snapshot(sequence: u64, bids: &Vec<Level>, asks: &Vec<Level>) -> (r: Orderbook)
        requires
            all_in_range(bids@),
            all_in_range(asks@),
        ensures
            r.wf(),
            r@ == (BookView {
                sequence,
                bids: apply_changes(Map::empty(), bids@),
                asks: apply_changes(Map::empty(), asks@),
            }),
    {
        let mut b = Side::new();
        b.apply_changes(bids);
        let mut a = Side::new();
        a.apply_changes(asks);
        Orderbook { sequence, bids: b, asks: a }
    }

    /// Applies a delta that continues this book and moves its sequence to
    /// the delta's last sequence.
    pub fn apply_delta(&mut self, d: &Delta)
        requires
            old(self).wf(),
            d.wf(),
            continues(old(self).sequence, *d),
        ensures
            final(self).wf(),
            final(self)@ == apply_delta_view(old(self)@, *d),
            final(self).sequence >= old(self).sequence,
    {
        self.bids.apply_changes(&d.bids);
        self.asks.apply_changes(&d.asks);
        self.sequence = d.to_seq;
    }

    /// Best bid and best ask.
    pub fn top(&self) -> (r: TopOfBook)
        ensures
            r == self.top_spec(),
    {
        TopOfBook { best_bid: self.bids.highest(), best_ask: self.asks.lowest() }
    }
}

/// Dropping the highest level of an ascending list drops its price from
/// the mapping.
pub proof fn lemma_levels_map_drop_last(s: Seq<Level>)
    requires
        ascending(s),
        s.len() > 0,
    ensures
        levels_map(s.drop_last()) =~= levels_map(s).remove(s.last().price),
{
    let t = s.drop_last();
    let m = levels_map(s).remove(s.last().price);
    assert forall|i: int| 0 <= i < t.len() implies m.contains_key((#[trigger] t[i]).price)
        && m[t[i].price] == t[i].size by {
        lemma_levels_map_index(s, i);
        assert(s[i].price < s[s.len() - 1].price);
    }
    assert forall|p: u64| #[trigger] m.contains_key(p) implies has_price(t, p) by {
        let k = choose|k: int| 0 <= k < s.len() && (#[trigger] s[k]).price == p;
        assert(t[k].price == p);
    }
    lemma_levels_map_eq(t, m);
}

/// A side's levels are fixed by what it maps: two ascending lists with the
/// same price-to-size mapping are the same list.
pub proof fn lemma_levels_determined(s: Seq<Level>, t: Seq<Level>)
    requires
        ascending(s),
        ascending(t),
        levels_map(s) == levels_map(t),
    ensures
        s == t,
    decreases s.len(),
{
    if s.len() == 0 {
        if t.len() > 0 {
            lemma_levels_map_index(t, 0);
        }
        assert(t =~= s);
    } else {
        lemma_levels_map_index(s, s.len() - 1);
        let p = s.last().price;
        assert(has_price(t, p));
        let j = choose|j: int| 0 <= j < t.len() && (#[trigger] t[j]).price == p;
        lemma_levels_map_index(t, t.len() - 1);
        let q = t.last().price;
        assert(has_price(s, q));
        let i = choose|i: int| 0 <= i < s.len() && (#[trigger] s[i]).price == q;
        if j < t.len() - 1 {
            assert(t[j].price < t[t.len() - 1].price);
        }
        if i < s.len() - 1 {
            assert(s[i].price < s[s.len() - 1].price);
        }
        assert(p == q);
        lemma_levels_map_drop_last(s);
        lemma_levels_map_drop_last(t);
        lemma_levels_determined(s.drop_last(), t.drop_last());
        assert(s.last() == t.last());
        assert(s =~= s.drop_last().push(s.last()));
        assert(t =~= t.drop_last().push(t.last()));
    }
}

/// Two well-formed books that hold the same sequence and mappings are
/// identical, level for level.
pub proof fn lemma_books_identical(a: Orderbook, b: Orderbook)
    requires
        a.wf(),
        b.wf(),
        a@ == b@,
    ensures
        a.sequence == b.sequence,
        a.bids.levels@ == b.bids.levels@,
        a.asks.levels@ == b.asks.levels@,
{
    lemma_levels_determined(a.bids.levels@, b.bids.levels@);
    lemma_levels_determined(a.asks.levels@, b.asks.levels@);
}

/// Whether every size in `m` is positive.
pub open spec fn no_zero_sizes(m: Map<u64, u64>) -> bool {
    forall|p: u64| #[trigger] m.contains_key(p) ==> m[p] > 0
}

/// Applying level changes never leaves a zero-size level.
pub proof fn lemma_apply_changes_no_zero(m: Map<u64, u64>, changes: Seq<Level>)
    requires
        no_zero_sizes(m),
    ensures
        no_zero_sizes(apply_changes(m, changes)),
    decreases changes.len(),
{
    if changes.len() > 0 {
        lemma_apply_changes_no_zero(m, changes.drop_last());
    }
}

/// A well-formed side maps no price to a zero size.
pub proof fn lemma_side_no_zero(s: Seq<Level>)
    requires
        side_wf(s),
    ensures
        no_zero_sizes(levels_map(s)),
{
    assert forall|p: u64| #[trigger] levels_map(s).contains_key(p) implies levels_map(s)[p] > 0 by {
        let i = choose|i: int| 0 <= i < s.len() && (#[trigger] s[i]).price == p;
        lemma_levels_map_index(s, i);
    }
}

} // verus!
