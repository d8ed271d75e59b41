//! Order-book reconciliation: merging an unordered stream of diff
//! events and snapshots into one consistent book.
//!
//! Diffs that arrive before the first snapshot are buffered, keyed by
//! sequence identifier with last write winning. A snapshot discards
//! buffered diffs with earlier sequences, replaces the book, replays the
//! remaining buffered diffs in ascending sequence order, and marks the
//! book ready. Once ready, diffs apply immediately.

use vstd::prelude::*;
use crate::book::{
    apply_rows, rows_view, rows_wf, BookSide, Level, LevelV,
};
use crate::errors::StreamError;
use crate::decimal::{dec_parse_v, dec_zero_v, parse_dec, parse_seq_id, seq_id_parse_v};

verus! {

// ---------------------------------------------------------------------
// Events as delivered: decimal strings
// ---------------------------------------------------------------------

/// One price level as delivered: two decimal strings.
pub struct RawLevel {
    pub price: String,
    pub qty: String,
}

pub ghost struct RawLevelV {
    pub price: Seq<char>,
    pub qty: Seq<char>,
}

impl RawLevel {
    pub open spec fn view_v(&self) -> RawLevelV {
        RawLevelV { price: self.price@, qty: self.qty@ }
    }
}

pub open spec fn raw_rows_view(s: Seq<RawLevel>) -> Seq<RawLevelV> {
    s.map(|i: int, l: RawLevel| l.view_v())
}

/// An incremental update: changed levels only; a zero quantity removes
/// the level.
pub struct DiffEvent {
    pub asks: Vec<RawLevel>,
    pub bids: Vec<RawLevel>,
    pub sequence: String,
    pub timestamp: String,
}

/// A full book at one sequence point; every level nonzero.
pub struct SnapshotEvent {
    pub asks: Vec<RawLevel>,
    pub bids: Vec<RawLevel>,
    pub sequence: String,
    pub timestamp: String,
}

pub ghost struct BookEventV {
    pub asks: Seq<RawLevelV>,
    pub bids: Seq<RawLevelV>,
    pub sequence: Seq<char>,
}

impl DiffEvent {
    pub open spec fn view_v(&self) -> BookEventV {
        BookEventV {
            asks: raw_rows_view(self.asks@),
            bids: raw_rows_view(self.bids@),
            sequence: self.sequence@,
        }
    }
}

impl SnapshotEvent {
    pub open spec fn view_v(&self) -> BookEventV {
        BookEventV {
            asks: raw_rows_view(self.asks@),
            bids: raw_rows_view(self.bids@),
            sequence: self.sequence@,
        }
    }
}

// ---------------------------------------------------------------------
// Parsing events
// ---------------------------------------------------------------------

/// What one raw level denotes, when both strings parse.
pub open spec fn row_parse_v(r: RawLevelV) -> Option<LevelV> {
    match (dec_parse_v(r.price), dec_parse_v(r.qty)) {
        (Some(p), Some(q)) => Some(LevelV { price: p, qty: q }),
        _ => None,
    }
}

/// What a list of raw levels denotes, when every row parses.
pub open spec fn rows_parse_v(rs: Seq<RawLevelV>) -> Option<Seq<LevelV>>
    decreases rs.len(),
{
    if rs.len() == 0 {
        Some(Seq::empty())
    } else {
        match rows_parse_v(rs.drop_last()) {
            None => None,
            Some(t) => match row_parse_v(rs.last()) {
                None => None,
                Some(x) => Some(t.push(x)),
            },
        }
    }
}

/// A parsed book event: numeric sequence and canonical rows.
pub ghost struct PDiffV {
    pub seq_no: nat,
    pub asks: Seq<LevelV>,
    pub bids: Seq<LevelV>,
}

pub open spec fn event_parse_v(d: BookEventV) -> Option<PDiffV> {
    match (rows_parse_v(d.asks), rows_parse_v(d.bids), seq_id_parse_v(d.sequence)) {
        (Some(a), Some(b), Some(n)) => Some(PDiffV { seq_no: n, asks: a, bids: b }),
        _ => None,
    }
}

/// Every row of the event carries a nonzero quantity; a snapshot that
/// breaks this violates the protocol.
pub open spec fn rows_nonzero(rows: Seq<LevelV>) -> bool {
    forall|i: int| 0 <= i < rows.len() ==> #[trigger] rows[i].qty != dec_zero_v()
}

proof fn lemma_rows_parse_none_extends(rs: Seq<RawLevelV>, i: int)
    requires
        0 <= i <= rs.len(),
        rows_parse_v(rs.subrange(0, i)) is None,
    ensures
        rows_parse_v(rs) is None,
    decreases rs.len(),
{
    if i == rs.len() {
        assert(rs.subrange(0, i) =~= rs);
    } else {
        let t = rs.drop_last();
        assert(t.subrange(0, i) =~= rs.subrange(0, i));
        lemma_rows_parse_none_extends(t, i);
    }
}

/// Parse every row of one side; nothing if any row is malformed.
fn parse_levels(rows: &Vec<RawLevel>) -> (r: Option<Vec<Level>>)
    ensures
        match r {
            Some(v) => rows_parse_v(raw_rows_view(rows@)) == Some(rows_view(v@)) && rows_wf(
                rows_view(v@),
            ),
            None => rows_parse_v(raw_rows_view(rows@)) is None,
        },
{
    let ghost rv = raw_rows_view(rows@);
    let n = rows.len();
    let mut acc: Vec<Level> = Vec::new();
    let mut i: usize = 0;
    proof {
        assert(rv.subrange(0, 0) =~= Seq::<RawLevelV>::empty());
        assert(rows_view(acc@) =~= Seq::<LevelV>::empty());
    }
    while i < n
        invariant
            i <= n,
            n == rows@.len(),
            rv == raw_rows_view(rows@),
            rows_parse_v(rv.subrange(0, i as int)) == Some(rows_view(acc@)),
            rows_wf(rows_view(acc@)),
        decreases n - i,
    {
        proof {
            assert(rv.subrange(0, (i + 1) as int).drop_last() =~= rv.subrange(0, i as int));
            assert(rv.subrange(0, (i + 1) as int).last() == rv[i as int]);
            assert(rv[i as int] == rows@[i as int].view_v());
        }
        let p = match parse_dec(rows[i].price.as_str()) {
            Some(p) => p,
            None => {
                proof {
                    lemma_rows_parse_none_extends(rv, (i + 1) as int);
                }
                return None;
            },
        };
        let q = match parse_dec(rows[i].qty.as_str()) {
            Some(q) => q,
            None => {
                proof {
                    lemma_rows_parse_none_extends(rv, (i + 1) as int);
                }
                return None;
            },
        };
        let ghost acc_before = rows_view(acc@);
        acc.push(Level { price: p, qty: q });
        proof {
            assert(rows_view(acc@) =~= acc_before.push(
                Level { price: p, qty: q }.view_v(),
            ));
        }
        i += 1;
    }
    proof {
        assert(rv.subrange(0, n as int) =~= rv);
    }
    Some(acc)
}

/// Whether any row carries a zero quantity.
fn any_zero_row(rows: &Vec<Level>) -> (r: bool)
    ensures
        r == !rows_nonzero(rows_view(rows@)),
{
    let n = rows.len();
    let mut i: usize = 0;
    while i < n
        invariant
            i <= n,
            n == rows@.len(),
            forall|j: int| 0 <= j < i ==> #[trigger] rows_view(rows@)[j].qty != dec_zero_v(),
        decreases n - i,
    {
        if rows[i].qty.is_zero() {
            proof {
                assert(rows_view(rows@)[i as int].qty == dec_zero_v());
            }
            return true;
        }
        proof {
            assert(rows_view(rows@)[i as int] == rows@[i as int].view_v());
        }
        i += 1;
    }
    false
}

// ---------------------------------------------------------------------
// The reconciliation state and its mathematical model
// ---------------------------------------------------------------------

/// A diff parsed and waiting for the first snapshot.
pub struct PendingDiff {
    pub seq_no: u64,
    pub asks: Vec<Level>,
    pub bids: Vec<Level>,
}

impl PendingDiff {
    pub open spec fn view_v(&self) -> PDiffV {
        PDiffV {
            seq_no: self.seq_no as nat,
            asks: rows_view(self.asks@),
            bids: rows_view(self.bids@),
        }
    }
}

pub open spec fn buf_view(s: Seq<PendingDiff>) -> Seq<PDiffV> {
    s.map(|i: int, d: PendingDiff| d.view_v())
}

/// Buffered diffs strictly ascend by sequence, so each sequence is held
/// at most once.
pub open spec fn buf_sorted(b: Seq<PDiffV>) -> bool {
    forall|i: int, j: int| 0 <= i < j < b.len() ==> b[i].seq_no < b[j].seq_no
}

pub open spec fn pdiff_wf(d: PDiffV) -> bool {
    rows_wf(d.asks) && rows_wf(d.bids)
}

/// The whole reconciliation state as mathematics.
pub ghost struct ReconV {
    pub ready: bool,
    pub buffer: Seq<PDiffV>,
    pub asks: Seq<LevelV>,
    pub bids: Seq<LevelV>,
}

pub open spec fn recon_init() -> ReconV {
    ReconV { ready: false, buffer: Seq::empty(), asks: Seq::empty(), bids: Seq::empty() }
}

/// Sorted insertion into the buffer; an equal sequence is overwritten,
/// so the last write per sequence wins.
pub open spec fn buf_insert(b: Seq<PDiffV>, d: PDiffV) -> Seq<PDiffV>
    decreases b.len(),
{
    if b.len() == 0 {
        seq![d]
    } else if d.seq_no < b[0].seq_no {
        seq![d] + b
    } else if d.seq_no == b[0].seq_no {
        seq![d] + b.drop_first()
    } else {
        seq![b[0]] + buf_insert(b.drop_first(), d)
    }
}

/// What one diff does: apply at once when ready, else buffer it.
pub open spec fn on_diff_spec(st: ReconV, d: PDiffV) -> ReconV {
    if st.ready {
        ReconV { asks: apply_rows(st.asks, d.asks), bids: apply_rows(st.bids, d.bids), ..st }
    } else {
        ReconV { buffer: buf_insert(st.buffer, d), ..st }
    }
}

/// Replay buffered diffs over a base book, first buffer entry first,
/// skipping those whose sequence precedes the snapshot's.
pub open spec fn replay(
    asks: Seq<LevelV>,
    bids: Seq<LevelV>,
    b: Seq<PDiffV>,
    from: nat,
) -> (Seq<LevelV>, Seq<LevelV>)
    decreases b.len(),
{
    if b.len() == 0 {
        (asks, bids)
    } else {
        if b[0].seq_no >= from {
            replay(
                apply_rows(asks, b[0].asks),
                apply_rows(bids, b[0].bids),
                b.drop_first(),
                from,
            )
        } else {
            replay(asks, bids, b.drop_first(), from)
        }
    }
}

/// What a snapshot does: discard stale buffered diffs, replace the book,
/// replay the rest in ascending sequence order, become ready.
pub open spec fn on_snapshot_spec(st: ReconV, s: PDiffV) -> ReconV {
    let base_asks = apply_rows(Seq::empty(), s.asks);
    let base_bids = apply_rows(Seq::empty(), s.bids);
    let after = replay(base_asks, base_bids, st.buffer, s.seq_no);
    ReconV { ready: true, buffer: Seq::empty(), asks: after.0, bids: after.1 }
}

// ---------------------------------------------------------------------
// The executable reconciler
// ---------------------------------------------------------------------

/// One reconciler per subscribed market, fed by `on_diff` and
/// `on_snapshot`, reset by `on_reconnect`.
pub struct OrderBookReconciler {
    pub ready: bool,
    pub buffer: Vec<PendingDiff>,
    pub asks: BookSide,
    pub bids: BookSide,
}

/// Insertion splits around any prefix of strictly smaller sequences.
proof fn lemma_buf_insert_skip(b: Seq<PDiffV>, d: PDiffV, i: int)
    requires
        0 <= i <= b.len(),
        forall|j: int| 0 <= j < i ==> (#[trigger] b[j].seq_no) < d.seq_no,
    ensures
        buf_insert(b, d) == b.take(i) + buf_insert(b.skip(i), d),
    decreases i,
{
    if i == 0 {
        assert(b.skip(0) =~= b);
        assert(b.take(0) + buf_insert(b, d) =~= buf_insert(b, d));
    } else {
        let t = b.drop_first();
        assert(forall|j: int| 0 <= j < i - 1 ==> t[j] == b[j + 1]);
        lemma_buf_insert_skip(t, d, i - 1);
        assert(buf_insert(b, d) == seq![b[0]] + buf_insert(t, d));
        assert(t.skip(i - 1) =~= b.skip(i));
        assert(seq![b[0]] + (t.take(i - 1) + buf_insert(t.skip(i - 1), d)) =~= (seq![b[0]]
            + t.take(i - 1)) + buf_insert(t.skip(i - 1), d));
        assert(seq![b[0]] + t.take(i - 1) =~= b.take(i));
    }
}

impl OrderBookReconciler {
    pub open spec fn view_v(&self) -> ReconV {
        ReconV {
            ready: self.ready,
            buffer: buf_view(self.buffer@),
            asks: self.asks.view_s(),
            bids: self.bids.view_s(),
        }
    }

    pub open spec fn wf(&self) -> bool {
        &&& self.asks.wf()
        &&& self.bids.wf()
        &&& buf_sorted(buf_view(self.buffer@))
        &&& forall|i: int| 0 <= i < self.buffer@.len() ==> pdiff_wf(#[trigger] buf_view(self.buffer@)[i])
    }

    /// A fresh reconciler: not ready, nothing buffered, empty book.
    pub fn new() -> (r: OrderBookReconciler)
        ensures
            r.wf(),
            r.view_v() == recon_init(),
    {
        let r = OrderBookReconciler {
            ready: false,
            buffer: Vec::new(),
            asks: BookSide::new(),
            bids: BookSide::new(),
        };
        proof {
            assert(buf_view(r.buffer@) =~= Seq::<PDiffV>::empty());
        }
        r
    }

    /// Take one diff event. Before the first snapshot it is buffered by
    /// sequence, overwriting an equal sequence; once ready it applies
    /// immediately. A malformed number is fatal for the event: the state
    /// is left unchanged and the error surfaces.
    pub fn on_diff(&mut self, d: &DiffEvent) -> (r: Result<(), StreamError>)
        requires
            old(self).wf(),
        ensures
            final(self).wf(),
            match event_parse_v(d.view_v()) {
                Some(pd) => r is Ok && final(self).view_v() == on_diff_spec(
                    old(self).view_v(),
                    pd,
                ),
                None => (r matches Err(StreamError::ParseError)) && final(self).view_v() == old(
                    self,
                ).view_v(),
            },
    {
        let ghost st0 = self.view_v();
        let asks = match parse_levels(&d.asks) {
            Some(v) => v,
            None => {
                return Err(StreamError::ParseError);
            },
        };
        let bids = match parse_levels(&d.bids) {
            Some(v) => v,
            None => {
                return Err(StreamError::ParseError);
            },
        };
        let seq_no = match parse_seq_id(d.sequence.as_str()) {
            Some(v) => v,
            None => {
                return Err(StreamError::ParseError);
            },
        };
        let ghost pd = event_parse_v(d.view_v()).unwrap();
        proof {
            assert(pd == PDiffV {
                seq_no: seq_no as nat,
                asks: rows_view(asks@),
                bids: rows_view(bids@),
            });
        }
        if self.ready {
            self.asks.apply_many(&asks);
            self.bids.apply_many(&bids);
            proof {
                assert(self.view_v() == on_diff_spec(st0, pd));
            }
        } else {
            let ghost b0 = buf_view(self.buffer@);
            let n = self.buffer.len();
            let mut i: usize = 0;
            while i < n && self.buffer[i].seq_no < seq_no
                invariant
                    i <= n,
                    n == self.buffer@.len(),
                    forall|j: int|
                        0 <= j < i ==> (#[trigger] buf_view(self.buffer@)[j].seq_no) < seq_no
                            as nat,
                decreases n - i,
            {
                proof {
                    assert(buf_view(self.buffer@)[i as int] == self.buffer@[i as int].view_v());
                }
                i += 1;
            }
            proof {
                assert(forall|j: int| 0 <= j < b0.len() ==> b0[j] == buf_view(self.buffer@)[j]);
                lemma_buf_insert_skip(b0, pd, i as int);
            }
            let pending = PendingDiff { seq_no, asks, bids };
            let ghost i0 = i as int;
            if i == n {
                self.buffer.push(pending);
                proof {
                    assert(b0.skip(i0) =~= Seq::<PDiffV>::empty());
                    assert(buf_insert(b0.skip(i0), pd) =~= seq![pd]);
                    assert(buf_view(self.buffer@) =~= b0.take(i0) + seq![pd]);
                }
            } else {
                let same = self.buffer[i].seq_no == seq_no;
                proof {
                    assert(b0.skip(i0)[0] == b0[i0]);
                    assert(b0[i0] == buf_view(self.buffer@)[i0]);
                }
                if same {
                    self.buffer.remove(i);
                    self.buffer.insert(i, pending);
                    proof {
                        assert(buf_insert(b0.skip(i0), pd) =~= seq![pd] + b0.skip(i0)
                            .drop_first());
                        assert(b0.skip(i0).drop_first() =~= b0.skip(i0 + 1));
                        assert(buf_view(self.buffer@) =~= b0.take(i0) + (seq![pd] + b0.skip(
                            i0 + 1,
                        )));
                    }
                } else {
                    self.buffer.insert(i, pending);
                    proof {
                        assert(buf_insert(b0.skip(i0), pd) =~= seq![pd] + b0.skip(i0));
                        assert(buf_view(self.buffer@) =~= b0.take(i0) + (seq![pd] + b0.skip(i0)));
                    }
                }
            }
            proof {
                assert(buf_view(self.buffer@) == buf_insert(b0, pd));
                assert(self.view_v() == on_diff_spec(st0, pd));
                lemma_buf_wf_after_insert(b0, pd, buf_view(self.buffer@));
            }
        }
        Ok(())
    }

    /// Take one snapshot event. Stale buffered diffs are discarded, the
    /// book is replaced, the remaining buffered diffs are replayed in
    /// ascending sequence order, and the book becomes ready. A malformed
    /// number is a parse error; a zero-quantity row is a protocol
    /// violation. Either error leaves the state unchanged.
    pub fn on_snapshot(&mut self, s: &SnapshotEvent) -> (r: Result<(), StreamError>)
        requires
            old(self).wf(),
        ensures
            final(self).wf(),
            match event_parse_v(s.view_v()) {
                Some(ps) => if rows_nonzero(ps.asks) && rows_nonzero(ps.bids) {
                    r is Ok && final(self).view_v() == on_snapshot_spec(old(self).view_v(), ps)
                } else {
                    (r matches Err(StreamError::ProtocolViolation)) && final(self).view_v() == old(
                        self,
                    ).view_v()
                },
                None => (r matches Err(StreamError::ParseError)) && final(self).view_v() == old(
                    self,
                ).view_v(),
            },
    {
        let ghost st0 = self.view_v();
        let asks = match parse_levels(&s.asks) {
            Some(v) => v,
            None => {
                return Err(StreamError::ParseError);
            },
        };
        let bids = match parse_levels(&s.bids) {
            Some(v) => v,
            None => {
                return Err(StreamError::ParseError);
            },
        };
        let seq_no = match parse_seq_id(s.sequence.as_str()) {
            Some(v) => v,
            None => {
                return Err(StreamError::ParseError);
            },
        };
        if any_zero_row(&asks) || any_zero_row(&bids) {
            return Err(StreamError::ProtocolViolation);
        }
        let ghost ps = event_parse_v(s.view_v()).unwrap();
        proof {
            assert(ps == PDiffV {
                seq_no: seq_no as nat,
                asks: rows_view(asks@),
                bids: rows_view(bids@),
            });
        }
        let mut new_asks = BookSide::new();
        let mut new_bids = BookSide::new();
        new_asks.apply_many(&asks);
        new_bids.apply_many(&bids);
        let ghost base = (new_asks.view_s(), new_bids.view_s());
        let ghost bv = buf_view(self.buffer@);
        let n = self.buffer.len();
        let mut i: usize = 0;
        proof {
            assert(bv.skip(0) =~= bv);
        }
        while i < n
            invariant
                i <= n,
                n == self.buffer@.len(),
                self.wf(),
                bv == buf_view(self.buffer@),
                new_asks.wf(),
                new_bids.wf(),
                replay(base.0, base.1, bv, seq_no as nat) == replay(
                    new_asks.view_s(),
                    new_bids.view_s(),
                    bv.skip(i as int),
                    seq_no as nat,
                ),
            decreases n - i,
        {
            proof {
                assert(bv.skip(i as int)[0] == bv[i as int]);
                assert(bv[i as int] == self.buffer@[i as int].view_v());
                assert(pdiff_wf(buf_view(self.buffer@)[i as int]));
                assert(pdiff_wf(bv[i as int]));
                assert(bv.skip(i as int).drop_first() =~= bv.skip(i as int + 1));
            }
            if self.buffer[i].seq_no >= seq_no {
                new_asks.apply_many(&self.buffer[i].asks);
                new_bids.apply_many(&self.buffer[i].bids);
            }
            i += 1;
        }
        proof {
            assert(bv.skip(n as int) =~= Seq::<PDiffV>::empty());
        }
        self.asks = new_asks;
        self.bids = new_bids;
        self.buffer.clear();
        self.ready = true;
        proof {
            assert(buf_view(self.buffer@) =~= Seq::<PDiffV>::empty());
            assert(self.view_v() == on_snapshot_spec(st0, ps));
        }
        Ok(())
    }

    /// The owning connection was re-established: nothing delivered since
    /// the disconnect is guaranteed, so buffering starts over. The book
    /// itself is left stale but inspectable.
    pub fn on_reconnect(&mut self)
        requires
            old(self).wf(),
        ensures
            final(self).wf(),
            final(self).view_v() == (ReconV {
                ready: false,
                buffer: Seq::empty(),
                asks: old(self).view_v().asks,
                bids: old(self).view_v().bids,
            }),
    {
        self.ready = false;
        self.buffer.clear();
        proof {
            assert(buf_view(self.buffer@) =~= Seq::<PDiffV>::empty());
        }
    }

    /// Whether the book is usable: true from the first snapshot's replay
    /// until the next reconnect.
    pub fn is_ready(&self) -> (r: bool)
        ensures
            r == self.view_v().ready,
    {
        self.ready
    }

    /// The top `depth` levels per side: asks ascending by numeric price,
    /// bids descending. Valid only when ready; calling it before the
    /// first snapshot is a usage error.
    pub fn current_view(&self, depth: usize) -> (r: (Vec<Level>, Vec<Level>))
        requires
            self.wf(),
            self.view_v().ready,
        ensures
            r.0@.len() == if depth <= self.view_v().asks.len() {
                depth as int
            } else {
                self.view_v().asks.len() as int
            },
            forall|k: int| 0 <= k < r.0@.len() ==> #[trigger] r.0@[k].view_v()
                == self.view_v().asks[k],
            r.1@.len() == if depth <= self.view_v().bids.len() {
                depth as int
            } else {
                self.view_v().bids.len() as int
            },
            forall|k: int| 0 <= k < r.1@.len() ==> #[trigger] r.1@[k].view_v()
                == self.view_v().bids[self.view_v().bids.len() - 1 - k],
    {
        (self.asks.top_asc(depth), self.bids.top_desc(depth))
    }
}

/// Sorted insertion keeps the buffer sorted and its entries well formed.
proof fn lemma_buf_wf_after_insert(b: Seq<PDiffV>, d: PDiffV, r: Seq<PDiffV>)
    requires
        buf_sorted(b),
        forall|i: int| 0 <= i < b.len() ==> pdiff_wf(#[trigger] b[i]),
        pdiff_wf(d),
        r == buf_insert(b, d),
    ensures
        buf_sorted(r),
        forall|i: int| 0 <= i < r.len() ==> pdiff_wf(#[trigger] r[i]),
    decreases b.len(),
{
    if b.len() == 0 {
    } else if d.seq_no < b[0].seq_no {
    } else if d.seq_no == b[0].seq_no {
        let t = b.drop_first();
        assert(forall|j: int| 0 <= j < t.len() ==> t[j] == b[j + 1]);
    } else {
        let t = b.drop_first();
        assert(forall|j: int| 0 <= j < t.len() ==> t[j] == b[j + 1]);
        lemma_buf_wf_after_insert(t, d, buf_insert(t, d));
        let rr = seq![b[0]] + buf_insert(t, d);
        assert(r == rr);
        // every entry of the inserted tail is either d or one of the tail,
        // so its sequence exceeds the head's
        assert forall|j: int| 0 < j < rr.len() implies b[0].seq_no < (#[trigger] rr[j]).seq_no by {
            lemma_buf_insert_members(t, d, j - 1);
        }
        assert forall|x: int, y: int| 0 <= x < y < rr.len() implies rr[x].seq_no < rr[y].seq_no by {
            if x > 0 {
                assert(rr[x] == buf_insert(t, d)[x - 1]);
                assert(rr[y] == buf_insert(t, d)[y - 1]);
            }
        }
        assert forall|j: int| 0 <= j < rr.len() implies pdiff_wf(#[trigger] rr[j]) by {
            if j > 0 {
                assert(rr[j] == buf_insert(t, d)[j - 1]);
            }
        }
    }
}

// ---------------------------------------------------------------------
// Laws of reconciliation
// ---------------------------------------------------------------------

/// A run of diff events, first arrival first, from a given state.
pub open spec fn run_diffs(st: ReconV, ds: Seq<PDiffV>) -> ReconV
    decreases ds.len(),
{
    if ds.len() == 0 {
        st
    } else {
        run_diffs(on_diff_spec(st, ds[0]), ds.drop_first())
    }
}

/// No two diffs of the run share a sequence identifier.
pub open spec fn distinct_seqs(ds: Seq<PDiffV>) -> bool {
    forall|i: int, j: int| 0 <= i < j < ds.len() ==> ds[i].seq_no != ds[j].seq_no
}

proof fn lemma_run_diffs_snoc(st: ReconV, ds: Seq<PDiffV>, d: PDiffV)
    ensures
        run_diffs(st, ds.push(d)) == on_diff_spec(run_diffs(st, ds), d),
    decreases ds.len(),
{
    if ds.len() == 0 {
        assert(ds.push(d)[0] == d);
        assert(ds.push(d).drop_first() =~= Seq::<PDiffV>::empty());
        assert(run_diffs(on_diff_spec(st, d), Seq::<PDiffV>::empty()) == on_diff_spec(st, d));
    } else {
        assert(ds.push(d)[0] == ds[0]);
        assert(ds.push(d).drop_first() =~= ds.drop_first().push(d));
        lemma_run_diffs_snoc(on_diff_spec(st, ds[0]), ds.drop_first(), d);
        assert(run_diffs(st, ds.push(d)) == run_diffs(on_diff_spec(st, ds[0]), ds.drop_first().push(d)));
        assert(run_diffs(st, ds) == run_diffs(on_diff_spec(st, ds[0]), ds.drop_first()));
    }
}

proof fn lemma_cons_multiset(x: PDiffV, s: Seq<PDiffV>)
    ensures
        (seq![x] + s).to_multiset() =~= s.to_multiset().insert(x),
    decreases s.len(),
{
    broadcast use vstd::seq_lib::group_to_multiset_ensures;
    broadcast use vstd::multiset::group_multiset_axioms;

    if s.len() == 0 {
        assert(seq![x] + s =~= Seq::<PDiffV>::empty().push(x));
        assert(s =~= Seq::<PDiffV>::empty());
    } else {
        let t = s.drop_last();
        lemma_cons_multiset(x, t);
        assert(seq![x] + s =~= (seq![x] + t).push(s.last()));
        assert(s =~= t.push(s.last()));
        assert((seq![x] + t).push(s.last()).to_multiset() =~= (seq![x] + t).to_multiset().insert(
            s.last(),
        ));
        assert(t.to_multiset().insert(x).insert(s.last()) =~= t.to_multiset().insert(
            s.last(),
        ).insert(x));
    }
}

proof fn lemma_buf_insert_sorted(b: Seq<PDiffV>, d: PDiffV)
    requires
        buf_sorted(b),
    ensures
        buf_sorted(buf_insert(b, d)),
    decreases b.len(),
{
    if b.len() == 0 {
    } else if d.seq_no < b[0].seq_no {
    } else if d.seq_no == b[0].seq_no {
        let t = b.drop_first();
        assert(forall|j: int| 0 <= j < t.len() ==> t[j] == b[j + 1]);
    } else {
        let t = b.drop_first();
        assert(forall|j: int| 0 <= j < t.len() ==> t[j] == b[j + 1]);
        lemma_buf_insert_sorted(t, d);
        let rr = seq![b[0]] + buf_insert(t, d);
        assert forall|j: int| 0 < j < rr.len() implies b[0].seq_no < (#[trigger] rr[j]).seq_no by {
            lemma_buf_insert_members(t, d, j - 1);
        }
        assert forall|x: int, y: int| 0 <= x < y < rr.len() implies rr[x].seq_no < rr[y].seq_no by {
            if x > 0 {
                assert(rr[x] == buf_insert(t, d)[x - 1]);
                assert(rr[y] == buf_insert(t, d)[y - 1]);
            }
        }
    }
}

/// Inserting a sequence the buffer does not yet hold adds the diff to
/// the buffer's contents, and nothing else.
proof fn lemma_buf_insert_multiset(b: Seq<PDiffV>, d: PDiffV)
    requires
        forall|k: int| 0 <= k < b.len() ==> (#[trigger] b[k].seq_no) != d.seq_no,
    ensures
        buf_insert(b, d).to_multiset() =~= b.to_multiset().insert(d),
    decreases b.len(),
{
    broadcast use vstd::seq_lib::group_to_multiset_ensures;
    broadcast use vstd::multiset::group_multiset_axioms;

    if b.len() == 0 {
        assert(buf_insert(b, d) =~= Seq::<PDiffV>::empty().push(d));
        assert(b =~= Seq::<PDiffV>::empty());
    } else if d.seq_no < b[0].seq_no {
        lemma_cons_multiset(d, b);
    } else if d.seq_no == b[0].seq_no {
        assert(b[0].seq_no != d.seq_no);
    } else {
        let t = b.drop_first();
        assert(forall|j: int| 0 <= j < t.len() ==> t[j] == b[j + 1]);
        lemma_buf_insert_multiset(t, d);
        lemma_cons_multiset(b[0], buf_insert(t, d));
        lemma_cons_multiset(b[0], t);
        assert(seq![b[0]] + t =~= b);
        assert(t.to_multiset().insert(d).insert(b[0]) =~= t.to_multiset().insert(b[0]).insert(d));
    }
}

/// Buffering a run of differently-sequenced diffs from a fresh state
/// collects exactly those diffs, sorted ascending by sequence.
proof fn lemma_run_diffs_shape(ds: Seq<PDiffV>)
    requires
        distinct_seqs(ds),
    ensures
        !run_diffs(recon_init(), ds).ready,
        run_diffs(recon_init(), ds).asks == Seq::<LevelV>::empty(),
        run_diffs(recon_init(), ds).bids == Seq::<LevelV>::empty(),
        buf_sorted(run_diffs(recon_init(), ds).buffer),
        run_diffs(recon_init(), ds).buffer.to_multiset() == ds.to_multiset(),
    decreases ds.len(),
{
    broadcast use vstd::seq_lib::group_to_multiset_ensures;

    if ds.len() == 0 {
        assert(ds =~= Seq::<PDiffV>::empty());
    } else {
        let ds0 = ds.drop_last();
        let d = ds.last();
        assert(ds0.push(d) =~= ds);
        assert(distinct_seqs(ds0)) by {
            assert(forall|j: int| 0 <= j < ds0.len() ==> ds0[j] == ds[j]);
        }
        lemma_run_diffs_shape(ds0);
        lemma_run_diffs_snoc(recon_init(), ds0, d);
        let st0 = run_diffs(recon_init(), ds0);
        assert forall|k: int| 0 <= k < st0.buffer.len() implies (#[trigger] st0.buffer[k].seq_no)
            != d.seq_no by {
            assert(st0.buffer.contains(st0.buffer[k]));
            assert(st0.buffer.to_multiset().count(st0.buffer[k]) > 0);
            assert(ds0.to_multiset().count(st0.buffer[k]) > 0);
            assert(ds0.contains(st0.buffer[k]));
            let w = choose|w: int| 0 <= w < ds0.len() && ds0[w] == st0.buffer[k];
            assert(ds[w] == ds0[w]);
            assert(ds[w].seq_no != ds[ds.len() - 1].seq_no);
        }
        lemma_buf_insert_sorted(st0.buffer, d);
        lemma_buf_insert_multiset(st0.buffer, d);
        assert(ds0.push(d).to_multiset() =~= ds0.to_multiset().insert(d));
    }
}

/// Two buffers sorted strictly ascending by sequence with the same
/// contents are the same buffer.
proof fn lemma_buf_sorted_unique(a: Seq<PDiffV>, b: Seq<PDiffV>)
    requires
        buf_sorted(a),
        buf_sorted(b),
        a.to_multiset() == b.to_multiset(),
    ensures
        a == b,
    decreases a.len(),
{
    broadcast use vstd::seq_lib::group_to_multiset_ensures;

    if a.len() == 0 {
        assert(b.to_multiset().len() == 0);
        assert(a =~= b);
    } else {
        assert(a.contains(a[0]));
        assert(a.to_multiset().count(a[0]) > 0);
        assert(b.contains(a[0]));
        let i = choose|i: int| 0 <= i < b.len() && b[i] == a[0];
        assert(b.contains(b[0]));
        assert(b.to_multiset().count(b[0]) > 0);
        assert(a.contains(b[0]));
        let j = choose|j: int| 0 <= j < a.len() && a[j] == b[0];
        assert(b[0].seq_no <= a[0].seq_no) by {
            if i > 0 {
                assert(b[0].seq_no < b[i].seq_no);
            }
        }
        assert(a[0].seq_no <= b[0].seq_no) by {
            if j > 0 {
                assert(a[0].seq_no < a[j].seq_no);
            }
        }
        assert(i == 0) by {
            if i > 0 {
                assert(b[0].seq_no < b[i].seq_no);
            }
        }
        assert(a[0] == b[0]);
        let ta = a.drop_first();
        let tb = b.drop_first();
        assert(a.remove(0) =~= ta);
        assert(b.remove(0) =~= tb);
        assert(ta.to_multiset() =~= a.to_multiset().remove(a[0]));
        assert(tb.to_multiset() =~= b.to_multiset().remove(b[0]));
        assert(buf_sorted(ta)) by {
            assert(forall|k: int| 0 <= k < ta.len() ==> ta[k] == a[k + 1]);
        }
        assert(buf_sorted(tb)) by {
            assert(forall|k: int| 0 <= k < tb.len() ==> tb[k] == b[k + 1]);
        }
        lemma_buf_sorted_unique(ta, tb);
        assert forall|k: int| 0 <= k < a.len() implies a[k] == b[k] by {
            if k > 0 {
                assert(a[k] == ta[k - 1]);
                assert(b[k] == tb[k - 1]);
            }
        }
        assert(a =~= b);
    }
}

/// LAW: for any arrival order of differently-sequenced diff events
/// followed by one snapshot, the final state is the same: the book is
/// the snapshot's contents with the buffered diffs of no earlier
/// sequence applied exactly once, in ascending sequence order,
/// independent of the diffs' arrival order.
pub proof fn lemma_reconciliation_order_independent(
    ds1: Seq<PDiffV>,
    ds2: Seq<PDiffV>,
    s: PDiffV,
)
    requires
        distinct_seqs(ds1),
        distinct_seqs(ds2),
        ds1.to_multiset() == ds2.to_multiset(),
    ensures
        run_diffs(recon_init(), ds1) == run_diffs(recon_init(), ds2),
        buf_sorted(run_diffs(recon_init(), ds1).buffer),
        run_diffs(recon_init(), ds1).buffer.to_multiset() == ds1.to_multiset(),
        on_snapshot_spec(run_diffs(recon_init(), ds1), s) == on_snapshot_spec(
            run_diffs(recon_init(), ds2),
            s,
        ),
{
    lemma_run_diffs_shape(ds1);
    lemma_run_diffs_shape(ds2);
    let st1 = run_diffs(recon_init(), ds1);
    let st2 = run_diffs(recon_init(), ds2);
    lemma_buf_sorted_unique(st1.buffer, st2.buffer);
    assert(st1 == st2);
}

/// LAW: applying one snapshot twice in a row, with no diffs pending or
/// arriving between the two, yields an identical state both times.
pub proof fn lemma_snapshot_idempotent(st: ReconV, s: PDiffV)
    requires
        st.buffer.len() == 0,
    ensures
        on_snapshot_spec(on_snapshot_spec(st, s), s) == on_snapshot_spec(st, s),
{
    assert(st.buffer =~= Seq::<PDiffV>::empty());
    let st1 = on_snapshot_spec(st, s);
    assert(st1.buffer =~= Seq::<PDiffV>::empty());
}

/// Each entry of an insertion result is the inserted diff or an entry of
/// the original buffer.
proof fn lemma_buf_insert_members(b: Seq<PDiffV>, d: PDiffV, j: int)
    requires
        0 <= j < buf_insert(b, d).len(),
    ensures
        buf_insert(b, d)[j] == d || exists|k: int| 0 <= k < b.len() && b[k] == buf_insert(b, d)[j],
    decreases b.len(),
{
    let r = buf_insert(b, d);
    if b.len() == 0 {
    } else if d.seq_no < b[0].seq_no {
        if j > 0 {
            assert(r[j] == b[j - 1]);
        }
    } else if d.seq_no == b[0].seq_no {
        if j > 0 {
            assert(r[j] == b.drop_first()[j - 1]);
            assert(b.drop_first()[j - 1] == b[j]);
        }
    } else {
        if j == 0 {
            assert(r[0] == b[0]);
        } else {
            let t = b.drop_first();
            assert(r[j] == buf_insert(t, d)[j - 1]);
            lemma_buf_insert_members(t, d, j - 1);
            if buf_insert(t, d)[j - 1] != d {
                let k = choose|k: int| 0 <= k < t.len() && t[k] == buf_insert(t, d)[j - 1];
                assert(b[k + 1] == buf_insert(t, d)[j - 1]);
            }
        }
    }
}

} // verus!
