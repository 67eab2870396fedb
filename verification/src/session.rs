//! One synchronization session: the order-book replica together with
//! the identifier of the last fully-applied update, fed by snapshot
//! loads and gated diff events.

use vstd::prelude::*;
use crate::book::BookStore;
use crate::book::Level;
use crate::book::Side;
use crate::book::apply_ds;
use crate::book::load_ds;
use crate::book::side_map;
use crate::gate::GateDecision;
use crate::gate::accepts;
use crate::gate::sequence_gate;
use crate::num::decimal_value;
use crate::num::parse_fixed8;
use crate::num::valid_decimal;

verus! {

/// One unparsed (price, size) change, exactly as the feed delivers it.
#[derive(Clone, Debug)]
pub struct RawLevel {
    /// Decimal price string.
    pub price: String,
    /// Decimal size string; "0" forms mean removal.
    pub size: String,
}

/// One incremental update: the id range it covers, an optional
/// back-reference to the previous event's final id (zero when absent),
/// and the per-side lists of raw (price, size) changes.
#[derive(Clone, Debug)]
pub struct DiffEvent {
    /// First update id covered by this event.
    pub start: i64,
    /// Last update id covered by this event.
    pub end: i64,
    /// Final id of the immediately preceding event, or zero.
    pub prev_final: i64,
    /// Changes to the bid side, in feed order.
    pub bid_deltas: Vec<RawLevel>,
    /// Changes to the ask side, in feed order.
    pub ask_deltas: Vec<RawLevel>,
}

/// The parsed form of one raw level: defined when both fields are
/// well-formed decimals whose fixed-point values fit; malformed levels
/// parse to nothing and are dropped, never defaulted.
pub open spec fn parsed_level(l: RawLevel) -> Option<Level> {
    if valid_decimal(l.price@) && decimal_value(l.price@) <= u64::MAX && valid_decimal(l.size@)
        && decimal_value(l.size@) <= u64::MAX {
        Option::Some(
            Level {
                price: decimal_value(l.price@) as u64,
                size: decimal_value(l.size@) as u64,
            },
        )
    } else {
        Option::None
    }
}

/// The well-formed levels of a batch, in feed order, malformed entries
/// dropped.
pub open spec fn parsed_levels(ls: Seq<RawLevel>) -> Seq<Level>
    decreases ls.len(),
{
    if ls.len() == 0 {
        Seq::empty()
    } else {
        let rest = parsed_levels(ls.drop_last());
        match parsed_level(ls.last()) {
            Option::Some(l) => rest.push(l),
            Option::None => rest,
        }
    }
}

/// Parse a batch of raw levels into fixed-point levels, dropping each
/// malformed entry and keeping the feed order of the rest.
pub fn parse_levels(ls: &Vec<RawLevel>) -> (r: Vec<Level>)
    ensures
        r@ == parsed_levels(ls@),
{
    let mut r: Vec<Level> = Vec::new();
    let n = ls.len();
    let mut k: usize = 0;
    proof {
        assert(ls@.take(0) =~= Seq::<RawLevel>::empty());
    }
    while k < n
        invariant
            n == ls@.len(),
            k <= n,
            r@ == parsed_levels(ls@.take(k as int)),
        decreases n - k,
    {
        let pr = parse_fixed8(ls[k].price.as_str());
        let sz = parse_fixed8(ls[k].size.as_str());
        proof {
            assert(ls@.take(k + 1).drop_last() =~= ls@.take(k as int));
            assert(ls@.take(k + 1).last() == ls@[k as int]);
        }
        if let (Some(p), Some(s)) = (pr, sz) {
            r.push(Level { price: p, size: s });
        }
        k += 1;
    }
    proof {
        assert(ls@.take(n as int) =~= ls@);
    }
    r
}

/// The session's verdict on one incoming diff event.
#[derive(PartialEq, Eq, Structural, Clone, Copy, Debug)]
pub enum ApplyOutcome {
    /// Already-applied history: ignored, no state change, no error.
    Stale,
    /// Accepted: the deltas were applied and the last id advanced.
    Applied,
    /// Unrecoverable sequence gap: no state change; the caller must
    /// discard this session and resynchronize from a fresh snapshot.
    Gap,
}

/// One synchronization session: the book replica plus the identifier of
/// the last fully-applied update.
#[derive(Debug)]
pub struct Session {
    /// The order-book replica owned by this session.
    pub book: BookStore,
    /// The id of the last fully-applied update.
    pub last_id: i64,
}

impl Session {
    /// Both book sides are well formed.
    pub open spec fn wf(self) -> bool {
        self.book.wf()
    }

    /// A fresh session with an empty book, before any snapshot.
    pub fn new() -> (r: Session)
        ensures
            r.wf(),
            r.last_id == 0,
            r.book.bids@.len() == 0,
            r.book.asks@.len() == 0,
    {
        Session { book: BookStore::new(), last_id: 0 }
    }

    /// Replace the whole book from a snapshot and restart sequencing at
    /// the snapshot's reported id. Malformed entries and entries with a
    /// zero size are dropped, never inserted.
    pub fn load_snapshot(&mut self, last_update_id: i64, bids: &Vec<RawLevel>, asks: &Vec<RawLevel>)
        ensures
            final(self).wf(),
            final(self).last_id == last_update_id,
            side_map(final(self).book.bids@) == load_ds(Map::empty(), parsed_levels(bids@)),
            side_map(final(self).book.asks@) == load_ds(Map::empty(), parsed_levels(asks@)),
    {
        let b = parse_levels(bids);
        let a = parse_levels(asks);
        self.book.load_snapshot(&b, &a);
        self.last_id = last_update_id;
    }

    /// Gate one diff event and, when it is accepted, apply both sides'
    /// deltas and advance the last id to the event's end; a stale event
    /// or a gap leaves the session untouched.
    pub fn apply_event(&mut self, ev: &DiffEvent) -> (r: ApplyOutcome)
        requires
            old(self).wf(),
        ensures
            final(self).wf(),
            r == ApplyOutcome::Stale <==> ev.end <= old(self).last_id,
            r == ApplyOutcome::Applied <==> accepts(
                old(self).last_id as int,
                ev.start as int,
                ev.end as int,
                ev.prev_final as int,
            ),
            r == ApplyOutcome::Gap <==> ev.end > old(self).last_id && !accepts(
                old(self).last_id as int,
                ev.start as int,
                ev.end as int,
                ev.prev_final as int,
            ),
            r == ApplyOutcome::Stale || r == ApplyOutcome::Gap ==> final(self).last_id == old(
                self,
            ).last_id && final(self).book.bids@ == old(self).book.bids@ && final(self).book.asks@
                == old(self).book.asks@,
            r == ApplyOutcome::Applied ==> final(self).last_id == ev.end && side_map(
                final(self).book.bids@,
            ) == apply_ds(side_map(old(self).book.bids@), parsed_levels(ev.bid_deltas@))
                && side_map(final(self).book.asks@) == apply_ds(
                side_map(old(self).book.asks@),
                parsed_levels(ev.ask_deltas@),
            ),
    {
        match sequence_gate(self.last_id, ev.start, ev.end, ev.prev_final) {
            GateDecision::Stale => ApplyOutcome::Stale,
            GateDecision::Gap => ApplyOutcome::Gap,
            GateDecision::Accept => {
                let bd = parse_levels(&ev.bid_deltas);
                let ad = parse_levels(&ev.ask_deltas);
                self.book.apply_deltas(Side::Bid, &bd);
                self.book.apply_deltas(Side::Ask, &ad);
                self.last_id = ev.end;
                ApplyOutcome::Applied
            },
        }
    }

    /// The best `n` levels of one side in display order (bids
    /// descending, asks ascending); empty for an empty side.
    pub fn top(&self, side: Side, n: usize) -> (r: Vec<Level>)
        requires
            self.wf(),
        ensures
            side == Side::Bid ==> r@.len() == (if n <= self.book.bids@.len() {
                n as int
            } else {
                self.book.bids@.len() as int
            }) && (forall|i: int|
                0 <= i < r@.len() ==> r@[i] == self.book.bids@[self.book.bids@.len() - 1 - i]),
            side == Side::Ask ==> r@.len() == (if n <= self.book.asks@.len() {
                n as int
            } else {
                self.book.asks@.len() as int
            }) && (forall|i: int| 0 <= i < r@.len() ==> r@[i] == self.book.asks@[i]),
            forall|i: int, j: int|
                0 <= i < j < r@.len() ==> (if side == Side::Bid {
                    r@[i].price > r@[j].price
                } else {
                    r@[i].price < r@[j].price
                }),
    {
        self.book.top(side, n)
    }
}

} // verus!
