//! One side of an order book: price levels with nonzero quantities,
//! kept strictly sorted by numeric price.
//!
//! A row of a diff event either removes a level (quantity zero) or
//! upserts it. A level with quantity zero is absent, never stored.

use vstd::prelude::*;
use crate::decimal::{
    dec_lt_v, dec_v_wf, dec_zero_v, lemma_dec_lt_asymm, lemma_dec_lt_irrefl, lemma_dec_lt_total,
    lemma_dec_lt_trans, Dec, DecV,
};

verus! {

// ---------------------------------------------------------------------
// The mathematical model: a sorted association list of levels
// ---------------------------------------------------------------------

/// One price level: a price and its outstanding quantity.
pub ghost struct LevelV {
    pub price: DecV,
    pub qty: DecV,
}

/// Prices strictly ascend.
pub open spec fn side_sorted(s: Seq<LevelV>) -> bool {
    forall|i: int, j: int| 0 <= i < j < s.len() ==> dec_lt_v(s[i].price, s[j].price)
}

/// A well-formed side: sorted, canonical values, no zero quantity stored.
pub open spec fn side_wf(s: Seq<LevelV>) -> bool {
    &&& side_sorted(s)
    &&& forall|i: int|
        0 <= i < s.len() ==> dec_v_wf(#[trigger] s[i].price) && dec_v_wf(s[i].qty) && s[i].qty
            != dec_zero_v()
}

/// Upsert a level at its sorted position, replacing an equal price.
pub open spec fn insert_row(s: Seq<LevelV>, p: DecV, q: DecV) -> Seq<LevelV>
    decreases s.len(),
{
    if s.len() == 0 {
        seq![LevelV { price: p, qty: q }]
    } else if dec_lt_v(p, s[0].price) {
        seq![LevelV { price: p, qty: q }] + s
    } else if p == s[0].price {
        seq![LevelV { price: p, qty: q }] + s.drop_first()
    } else {
        seq![s[0]] + insert_row(s.drop_first(), p, q)
    }
}

/// Remove the level at a price, if present.
pub open spec fn remove_row(s: Seq<LevelV>, p: DecV) -> Seq<LevelV>
    decreases s.len(),
{
    if s.len() == 0 {
        s
    } else if p == s[0].price {
        s.drop_first()
    } else {
        seq![s[0]] + remove_row(s.drop_first(), p)
    }
}

/// What one diff row does to a side: quantity zero removes the level,
/// any other quantity upserts it.
pub open spec fn apply_row(s: Seq<LevelV>, p: DecV, q: DecV) -> Seq<LevelV> {
    if q == dec_zero_v() {
        remove_row(s, p)
    } else {
        insert_row(s, p, q)
    }
}

/// What a whole list of diff rows does to a side, first row first.
pub open spec fn apply_rows(s: Seq<LevelV>, rows: Seq<LevelV>) -> Seq<LevelV>
    decreases rows.len(),
{
    if rows.len() == 0 {
        s
    } else {
        apply_rows(apply_row(s, rows[0].price, rows[0].qty), rows.drop_first())
    }
}

/// Rows whose prices and quantities are canonical values.
pub open spec fn rows_wf(rows: Seq<LevelV>) -> bool {
    forall|i: int|
        0 <= i < rows.len() ==> dec_v_wf(#[trigger] rows[i].price) && dec_v_wf(rows[i].qty)
}

/// The quantity stored at a price, if any.
pub open spec fn lookup_row(s: Seq<LevelV>, p: DecV) -> Option<DecV>
    decreases s.len(),
{
    if s.len() == 0 {
        None
    } else if p == s[0].price {
        Some(s[0].qty)
    } else {
        lookup_row(s.drop_first(), p)
    }
}

// ---------------------------------------------------------------------
// Lemmas on the model
// ---------------------------------------------------------------------

/// Upserting splits around any prefix of strictly smaller prices.
pub proof fn lemma_insert_row_skip(s: Seq<LevelV>, p: DecV, q: DecV, i: int)
    requires
        0 <= i <= s.len(),
        forall|j: int| 0 <= j < i ==> dec_lt_v(#[trigger] s[j].price, p),
    ensures
        insert_row(s, p, q) == s.take(i) + insert_row(s.skip(i), p, q),
    decreases i,
{
    if i == 0 {
        assert(s.skip(0) =~= s);
        assert(s.take(0) + insert_row(s, p, q) =~= insert_row(s, p, q));
    } else {
        lemma_dec_lt_asymm(s[0].price, p);
        if p == s[0].price {
            lemma_dec_lt_irrefl(p);
        }
        let d = s.drop_first();
        assert(forall|j: int| 0 <= j < i - 1 ==> d[j] == s[j + 1]);
        lemma_insert_row_skip(d, p, q, i - 1);
        assert(insert_row(s, p, q) == seq![s[0]] + insert_row(d, p, q));
        assert(d.skip(i - 1) =~= s.skip(i));
        assert(seq![s[0]] + (d.take(i - 1) + insert_row(d.skip(i - 1), p, q)) =~= (seq![s[0]]
            + d.take(i - 1)) + insert_row(d.skip(i - 1), p, q));
        assert(seq![s[0]] + d.take(i - 1) =~= s.take(i));
    }
}

/// Removal splits around any prefix of strictly smaller prices.
pub proof fn lemma_remove_row_skip(s: Seq<LevelV>, p: DecV, i: int)
    requires
        0 <= i <= s.len(),
        forall|j: int| 0 <= j < i ==> dec_lt_v(#[trigger] s[j].price, p),
    ensures
        remove_row(s, p) == s.take(i) + remove_row(s.skip(i), p),
    decreases i,
{
    if i == 0 {
        assert(s.skip(0) =~= s);
        assert(s.take(0) + remove_row(s, p) =~= remove_row(s, p));
    } else {
        if p == s[0].price {
            lemma_dec_lt_irrefl(p);
        }
        let d = s.drop_first();
        assert(forall|j: int| 0 <= j < i - 1 ==> d[j] == s[j + 1]);
        lemma_remove_row_skip(d, p, i - 1);
        assert(remove_row(s, p) == seq![s[0]] + remove_row(d, p));
        assert(d.skip(i - 1) =~= s.skip(i));
        assert(seq![s[0]] + (d.take(i - 1) + remove_row(d.skip(i - 1), p)) =~= (seq![s[0]]
            + d.take(i - 1)) + remove_row(d.skip(i - 1), p));
        assert(seq![s[0]] + d.take(i - 1) =~= s.take(i));
    }
}

/// Removing a price that no level carries changes nothing.
pub proof fn lemma_remove_row_all_ne(s: Seq<LevelV>, p: DecV)
    requires
        forall|j: int| 0 <= j < s.len() ==> #[trigger] s[j].price != p,
    ensures
        remove_row(s, p) == s,
    decreases s.len(),
{
    if s.len() > 0 {
        let d = s.drop_first();
        lemma_remove_row_all_ne(d, p);
        assert(seq![s[0]] + d =~= s);
    }
}

/// No level of `s` carries `p` exactly when `lookup_row` finds nothing.
pub proof fn lemma_lookup_none_iff(s: Seq<LevelV>, p: DecV)
    ensures
        (lookup_row(s, p) is None) <==> (forall|j: int|
            0 <= j < s.len() ==> #[trigger] s[j].price != p),
    decreases s.len(),
{
    if s.len() > 0 {
        let d = s.drop_first();
        lemma_lookup_none_iff(d, p);
        assert(forall|j: int| 0 <= j < d.len() ==> d[j] == s[j + 1]);
        if p == s[0].price {
            assert(!(s[0].price != p));
        } else {
            assert(lookup_row(s, p) == lookup_row(d, p));
            if lookup_row(d, p) is None {
                assert forall|j: int| 0 <= j < s.len() implies #[trigger] s[j].price != p by {
                    if j > 0 {
                        assert(s[j] == d[j - 1]);
                    }
                }
            } else {
                assert(!(forall|j: int| 0 <= j < d.len() ==> #[trigger] d[j].price != p));
                let w = choose|j: int| 0 <= j < d.len() && !(#[trigger] d[j].price != p);
                assert(s[w + 1].price == p);
            }
        }
    }
}

/// A zero-quantity row applied at an absent price is a no-op.
pub proof fn lemma_zero_row_absent(s: Seq<LevelV>, p: DecV)
    requires
        lookup_row(s, p) is None,
    ensures
        apply_row(s, p, dec_zero_v()) == s,
{
    lemma_lookup_none_iff(s, p);
    lemma_remove_row_all_ne(s, p);
}

/// A zero-quantity row removes the level at its price and touches no
/// other level.
pub proof fn lemma_zero_row_removes(s: Seq<LevelV>, p: DecV)
    requires
        side_sorted(s),
    ensures
        lookup_row(apply_row(s, p, dec_zero_v()), p) is None,
        forall|k: DecV| k != p ==> lookup_row(apply_row(s, p, dec_zero_v()), k) == lookup_row(
            s,
            k,
        ),
    decreases s.len(),
{
    if s.len() == 0 {
    } else {
        let d = s.drop_first();
        assert(forall|i: int, j: int| 0 <= i < j < d.len() ==> dec_lt_v(d[i].price, d[j].price))
            by {
            assert(forall|j: int| 0 <= j < d.len() ==> d[j] == s[j + 1]);
        }
        if p == s[0].price {
            // the tail's prices all exceed p, so p is absent from it
            assert(remove_row(s, p) == d);
            assert forall|j: int| 0 <= j < d.len() implies #[trigger] d[j].price != p by {
                assert(d[j] == s[j + 1]);
                assert(dec_lt_v(s[0].price, s[j + 1].price));
                lemma_dec_lt_irrefl(p);
            }
            lemma_lookup_none_iff(d, p);
            assert forall|k: DecV| k != p implies lookup_row(remove_row(s, p), k) == lookup_row(
                s,
                k,
            ) by {
                assert(lookup_row(s, k) == lookup_row(d, k));
            }
        } else {
            lemma_zero_row_removes(d, p);
            let r = seq![s[0]] + remove_row(d, p);
            assert(remove_row(s, p) == r);
            assert(r[0] == s[0]);
            assert(r.drop_first() =~= remove_row(d, p));
            assert(lookup_row(r, p) == lookup_row(remove_row(d, p), p));
            assert forall|k: DecV| k != p implies lookup_row(remove_row(s, p), k) == lookup_row(
                s,
                k,
            ) by {
                if k == s[0].price {
                } else {
                    assert(lookup_row(r, k) == lookup_row(remove_row(d, p), k));
                    assert(lookup_row(s, k) == lookup_row(d, k));
                }
            }
        }
    }
}

// ---------------------------------------------------------------------
// The executable side
// ---------------------------------------------------------------------

/// One stored price level.
pub struct Level {
    pub price: Dec,
    pub qty: Dec,
}

impl Level {
    pub open spec fn view_v(&self) -> LevelV {
        LevelV { price: self.price.view_v(), qty: self.qty.view_v() }
    }

    pub fn duplicate(&self) -> (r: Level)
        ensures
            r.view_v() == self.view_v(),
    {
        Level { price: self.price.duplicate(), qty: self.qty.duplicate() }
    }
}

/// The values of a list of stored levels.
pub open spec fn rows_view(s: Seq<Level>) -> Seq<LevelV> {
    s.map(|i: int, l: Level| l.view_v())
}

/// One side of the book, levels strictly ascending by price.
pub struct BookSide {
    pub levels: Vec<Level>,
}

/// Index of the first level whose price is not below `price`.
fn find_pos(levels: &Vec<Level>, price: &Dec) -> (r: usize)
    ensures
        r <= levels@.len(),
        forall|j: int| 0 <= j < r ==> dec_lt_v(#[trigger] levels@[j].view_v().price, price.view_v()),
        r < levels@.len() ==> !dec_lt_v(levels@[r as int].view_v().price, price.view_v()),
{
    let n = levels.len();
    let mut i: usize = 0;
    while i < n && levels[i].price.lt(price)
        invariant
            i <= n,
            n == levels@.len(),
            forall|j: int|
                0 <= j < i ==> dec_lt_v(#[trigger] levels@[j].view_v().price, price.view_v()),
        decreases n - i,
    {
        i += 1;
    }
    i
}

impl BookSide {
    /// The side as a sequence of level values, ascending by price.
    pub open spec fn view_s(&self) -> Seq<LevelV> {
        rows_view(self.levels@)
    }

    pub open spec fn wf(&self) -> bool {
        side_wf(self.view_s())
    }

    /// An empty side.
    pub fn new() -> (r: BookSide)
        ensures
            r.view_s() =~= Seq::<LevelV>::empty(),
            r.wf(),
    {
        let r = BookSide { levels: Vec::new() };
        proof {
            assert(r.view_s() =~= Seq::<LevelV>::empty());
        }
        r
    }

    pub fn len(&self) -> (r: usize)
        ensures
            r == self.view_s().len(),
    {
        self.levels.len()
    }

    /// Apply one diff row: quantity zero removes the level at `price`,
    /// any other quantity upserts it. The side stays well formed.
    pub fn apply(&mut self, price: &Dec, qty: &Dec)
        requires
            old(self).wf(),
            price.wf(),
            qty.wf(),
        ensures
            final(self).wf(),
            final(self).view_s() == apply_row(old(self).view_s(), price.view_v(), qty.view_v()),
    {
        let ghost s0 = self.view_s();
        let ghost pv = price.view_v();
        let ghost qv = qty.view_v();
        let i = find_pos(&self.levels, price);
        let ghost i0 = i as int;
        proof {
            assert(forall|j: int| 0 <= j < s0.len() ==> s0[j] == self.levels@[j].view_v());
            assert(forall|j: int| 0 <= j < i0 ==> dec_lt_v(#[trigger] s0[j].price, pv));
        }
        let zero = qty.is_zero();
        if i == self.levels.len() {
            if !zero {
                self.levels.push(Level { price: price.duplicate(), qty: qty.duplicate() });
                proof {
                    lemma_insert_row_skip(s0, pv, qv, i0);
                    assert(s0.skip(i0) =~= Seq::<LevelV>::empty());
                    assert(insert_row(s0.skip(i0), pv, qv) =~= seq![LevelV { price: pv, qty: qv }]);
                    assert(self.view_s() =~= s0.take(i0) + seq![LevelV { price: pv, qty: qv }]);
                    lemma_side_wf_insert(s0, i0, LevelV { price: pv, qty: qv });
                    assert(s0.insert(i0, LevelV { price: pv, qty: qv }) =~= self.view_s());
                }
            } else {
                proof {
                    assert forall|j: int| 0 <= j < s0.len() implies #[trigger] s0[j].price != pv by {
                        lemma_dec_lt_irrefl(pv);
                    }
                    lemma_remove_row_all_ne(s0, pv);
                }
            }
        } else {
            let at_eq = self.levels[i].price.eq_dec(price);
            proof {
                assert(s0[i0] == self.levels@[i0].view_v());
                if !at_eq && !dec_lt_v(pv, s0[i0].price) {
                    lemma_dec_lt_total(s0[i0].price, pv);
                }
            }
            if at_eq {
                if zero {
                    self.levels.remove(i);
                    proof {
                        lemma_remove_row_skip(s0, pv, i0);
                        assert(s0.skip(i0)[0] == s0[i0]);
                        assert(remove_row(s0.skip(i0), pv) =~= s0.skip(i0).drop_first());
                        assert(s0.skip(i0).drop_first() =~= s0.skip(i0 + 1));
                        assert(self.view_s() =~= s0.take(i0) + s0.skip(i0 + 1));
                        lemma_side_wf_remove(s0, i0);
                        assert(s0.remove(i0) =~= self.view_s());
                    }
                } else {
                    let fresh = Level { price: price.duplicate(), qty: qty.duplicate() };
                    self.levels.remove(i);
                    self.levels.insert(i, fresh);
                    proof {
                        lemma_insert_row_skip(s0, pv, qv, i0);
                        assert(s0.skip(i0)[0] == s0[i0]);
                        assert(insert_row(s0.skip(i0), pv, qv) =~= seq![
                            LevelV { price: pv, qty: qv },
                        ] + s0.skip(i0).drop_first());
                        assert(s0.skip(i0).drop_first() =~= s0.skip(i0 + 1));
                        assert(self.view_s() =~= s0.take(i0) + (seq![LevelV { price: pv, qty: qv }]
                            + s0.skip(i0 + 1)));
                        assert(self.view_s() =~= apply_row(s0, pv, qv));
                        lemma_side_wf_replace(s0, i0, LevelV { price: pv, qty: qv });
                    }
                }
            } else {
                // price falls strictly before level i
                if !zero {
                    self.levels.insert(i, Level { price: price.duplicate(), qty: qty.duplicate() });
                    proof {
                        lemma_insert_row_skip(s0, pv, qv, i0);
                        assert(s0.skip(i0)[0] == s0[i0]);
                        assert(insert_row(s0.skip(i0), pv, qv) =~= seq![
                            LevelV { price: pv, qty: qv },
                        ] + s0.skip(i0));
                        assert(self.view_s() =~= s0.take(i0) + (seq![LevelV { price: pv, qty: qv }]
                            + s0.skip(i0)));
                        lemma_side_wf_insert(s0, i0, LevelV { price: pv, qty: qv });
                        assert(s0.insert(i0, LevelV { price: pv, qty: qv }) =~= self.view_s());
                    }
                } else {
                    proof {
                        assert forall|j: int| 0 <= j < s0.len() implies #[trigger] s0[j].price
                            != pv by {
                            if j < i0 {
                                lemma_dec_lt_irrefl(pv);
                            } else if j == i0 {
                            } else {
                                assert(dec_lt_v(s0[i0].price, s0[j].price));
                                lemma_dec_lt_trans(pv, s0[i0].price, s0[j].price);
                                lemma_dec_lt_irrefl(pv);
                            }
                        }
                        lemma_remove_row_all_ne(s0, pv);
                    }
                }
            }
        }
    }

    /// Apply every row of one diff event's side, first row first.
    pub fn apply_many(&mut self, rows: &Vec<Level>)
        requires
            old(self).wf(),
            rows_wf(rows_view(rows@)),
        ensures
            final(self).wf(),
            final(self).view_s() == apply_rows(old(self).view_s(), rows_view(rows@)),
    {
        let ghost s0 = self.view_s();
        let ghost rv = rows_view(rows@);
        let n = rows.len();
        let mut i: usize = 0;
        proof {
            assert(rv.skip(0) =~= rv);
        }
        while i < n
            invariant
                i <= n,
                n == rows@.len(),
                rv == rows_view(rows@),
                rows_wf(rv),
                self.wf(),
                apply_rows(s0, rv) == apply_rows(self.view_s(), rv.skip(i as int)),
            decreases n - i,
        {
            proof {
                assert(rv.skip(i as int)[0] == rv[i as int]);
                assert(rv[i as int] == rows@[i as int].view_v());
                assert(dec_v_wf(rv[i as int].price));
                assert(rv.skip(i as int).drop_first() =~= rv.skip(i as int + 1));
            }
            self.apply(&rows[i].price, &rows[i].qty);
            i += 1;
        }
        proof {
            assert(rv.skip(n as int) =~= Seq::<LevelV>::empty());
        }
    }

    /// The lowest `depth` levels, ascending: the ask-side view.
    pub fn top_asc(&self, depth: usize) -> (r: Vec<Level>)
        ensures
            r@.len() == if depth <= self.view_s().len() {
                depth as int
            } else {
                self.view_s().len() as int
            },
            forall|k: int| 0 <= k < r@.len() ==> #[trigger] r@[k].view_v() == self.view_s()[k],
    {
        let m = if depth <= self.levels.len() {
            depth
        } else {
            self.levels.len()
        };
        let mut r: Vec<Level> = Vec::new();
        let mut k: usize = 0;
        while k < m
            invariant
                k <= m,
                m <= self.levels@.len(),
                r@.len() == k,
                forall|t: int| 0 <= t < k ==> #[trigger] r@[t].view_v() == self.view_s()[t],
            decreases m - k,
        {
            r.push(self.levels[k].duplicate());
            k += 1;
        }
        r
    }

    /// The highest `depth` levels, descending: the bid-side view.
    pub fn top_desc(&self, depth: usize) -> (r: Vec<Level>)
        ensures
            r@.len() == if depth <= self.view_s().len() {
                depth as int
            } else {
                self.view_s().len() as int
            },
            forall|k: int|
                0 <= k < r@.len() ==> #[trigger] r@[k].view_v() == self.view_s()[self.view_s().len()
                    - 1 - k],
    {
        let n = self.levels.len();
        let m = if depth <= n {
            depth
        } else {
            n
        };
        let mut r: Vec<Level> = Vec::new();
        let mut k: usize = 0;
        while k < m
            invariant
                k <= m,
                m <= n,
                n == self.levels@.len(),
                r@.len() == k,
                forall|t: int|
                    0 <= t < k ==> #[trigger] r@[t].view_v() == self.view_s()[n - 1 - t],
            decreases m - k,
        {
            r.push(self.levels[n - 1 - k].duplicate());
            k += 1;
        }
        r
    }
}

// ---------------------------------------------------------------------
// Well-formedness of the three splices
// ---------------------------------------------------------------------

proof fn lemma_side_wf_insert(s: Seq<LevelV>, i: int, x: LevelV)
    requires
        side_wf(s),
        0 <= i <= s.len(),
        dec_v_wf(x.price),
        dec_v_wf(x.qty),
        x.qty != dec_zero_v(),
        forall|j: int| 0 <= j < i ==> dec_lt_v(#[trigger] s[j].price, x.price),
        i < s.len() ==> dec_lt_v(x.price, s[i].price),
    ensures
        side_wf(s.insert(i, x)),
{
    let t = s.insert(i, x);
    s.insert_ensures(i, x);
    assert forall|j: int| i <= j < s.len() implies dec_lt_v(x.price, #[trigger] s[j].price) by {
        if j > i {
            lemma_dec_lt_trans(x.price, s[i].price, s[j].price);
        }
    }
    assert forall|a: int, b: int| 0 <= a < b < t.len() implies dec_lt_v(
        t[a].price,
        t[b].price,
    ) by {
        if a < i && b < i {
        } else if a < i && b == i {
        } else if a < i && b > i {
            assert(t[b] == s[b - 1]);
        } else if a == i {
            assert(t[b] == s[b - 1]);
        } else {
            assert(t[a] == s[a - 1]);
            assert(t[b] == s[b - 1]);
        }
    }
    assert forall|j: int| 0 <= j < t.len() implies dec_v_wf(#[trigger] t[j].price) && dec_v_wf(
        t[j].qty,
    ) && t[j].qty != dec_zero_v() by {
        if j < i {
        } else if j == i {
        } else {
            assert(t[j] == s[j - 1]);
        }
    }
}

proof fn lemma_side_wf_remove(s: Seq<LevelV>, i: int)
    requires
        side_wf(s),
        0 <= i < s.len(),
    ensures
        side_wf(s.remove(i)),
{
    let t = s.remove(i);
    s.remove_ensures(i);
    assert forall|a: int, b: int| 0 <= a < b < t.len() implies dec_lt_v(
        t[a].price,
        t[b].price,
    ) by {
        if a < i && b < i {
        } else if a < i {
            assert(t[b] == s[b + 1]);
        } else {
            assert(t[a] == s[a + 1]);
            assert(t[b] == s[b + 1]);
        }
    }
    assert forall|j: int| 0 <= j < t.len() implies dec_v_wf(#[trigger] t[j].price) && dec_v_wf(
        t[j].qty,
    ) && t[j].qty != dec_zero_v() by {
        if j < i {
            assert(dec_v_wf(s[j].price));
        } else {
            assert(t[j] == s[j + 1]);
            assert(dec_v_wf(s[j + 1].price));
        }
    }
}

proof fn lemma_side_wf_replace(s: Seq<LevelV>, i: int, x: LevelV)
    requires
        side_wf(s),
        0 <= i < s.len(),
        dec_v_wf(x.price),
        dec_v_wf(x.qty),
        x.qty != dec_zero_v(),
        x.price == s[i].price,
    ensures
        side_wf(s.take(i) + (seq![x] + s.skip(i + 1))),
{
    let t = s.take(i) + (seq![x] + s.skip(i + 1));
    assert(t.len() == s.len());
    assert forall|j: int| 0 <= j < t.len() implies #[trigger] t[j] == if j == i {
        x
    } else {
        s[j]
    } by {}
    assert forall|a: int, b: int| 0 <= a < b < t.len() implies dec_lt_v(
        t[a].price,
        t[b].price,
    ) by {
        assert(t[a] == if a == i { x } else { s[a] });
        assert(t[b] == if b == i { x } else { s[b] });
    }
    assert forall|j: int| 0 <= j < t.len() implies dec_v_wf(#[trigger] t[j].price) && dec_v_wf(
        t[j].qty,
    ) && t[j].qty != dec_zero_v() by {
        assert(t[j] == if j == i { x } else { s[j] });
        if j != i {
            assert(dec_v_wf(s[j].price));
        }
    }
}

} // verus!
