//! Exact decimal values carried as strings on the wire: parsing,
//! canonical form, and numeric ordering.
//!
//! A price or quantity arrives as a decimal string such as `"10.50"`.
//! It is parsed into a canonical pair of an integer part and a fraction
//! with no trailing zero digits, so that numerically equal strings parse
//! to equal values and numeric order is decided without floating point.

use vstd::prelude::*;

verus! {

// ---------------------------------------------------------------------
// Characters and the scan of a decimal string
// ---------------------------------------------------------------------

/// True of the ten ASCII digit characters.
pub open spec fn is_digit_char(c: char) -> bool {
    ('0' as u32) <= (c as u32) && (c as u32) <= ('9' as u32)
}

/// Numeric value of a digit character.
pub open spec fn digit_val(c: char) -> nat
    recommends
        is_digit_char(c),
{
    ((c as u32) - ('0' as u32)) as nat
}

/// State of a left-to-right scan of a decimal string.
pub ghost struct DecScan {
    /// Value of the digits seen before the dot.
    pub units: nat,
    /// How many digits stood before the dot.
    pub int_digits: nat,
    /// The digits seen after the dot.
    pub frac: Seq<u8>,
    /// Whether a dot has been seen.
    pub dot: bool,
}

pub open spec fn scan_init() -> DecScan {
    DecScan { units: 0, int_digits: 0, frac: Seq::empty(), dot: false }
}

/// One character advances the scan; a character that fits nowhere in the
/// grammar (digits, one dot, digits) fails it.
pub open spec fn scan_step(st: DecScan, c: char) -> Option<DecScan> {
    if is_digit_char(c) {
        if st.dot {
            Some(DecScan { frac: st.frac.push(digit_val(c) as u8), ..st })
        } else {
            Some(
                DecScan {
                    units: st.units * 10 + digit_val(c),
                    int_digits: st.int_digits + 1,
                    ..st
                },
            )
        }
    } else if c == '.' && !st.dot {
        Some(DecScan { dot: true, ..st })
    } else {
        None
    }
}

pub open spec fn scan_dec(s: Seq<char>) -> Option<DecScan>
    decreases s.len(),
{
    if s.len() == 0 {
        Some(scan_init())
    } else {
        match scan_dec(s.drop_last()) {
            None => None,
            Some(st) => scan_step(st, s.last()),
        }
    }
}

/// A well-formed decimal string: one or more digits, optionally followed
/// by a dot and one or more digits.
pub open spec fn dec_str_valid(s: Seq<char>) -> bool {
    match scan_dec(s) {
        None => false,
        Some(st) => st.int_digits > 0 && (st.dot ==> st.frac.len() > 0),
    }
}

/// Fraction digits with trailing zeros removed, so that `"10.50"` and
/// `"10.5"` share one canonical form.
pub open spec fn strip_zeros(f: Seq<u8>) -> Seq<u8>
    decreases f.len(),
{
    if f.len() == 0 {
        f
    } else if f.last() == 0 {
        strip_zeros(f.drop_last())
    } else {
        f
    }
}

// ---------------------------------------------------------------------
// The canonical value of a decimal
// ---------------------------------------------------------------------

/// Mathematical form of a decimal: integer part and canonical fraction
/// digits.
pub ghost struct DecV {
    pub units: nat,
    pub frac: Seq<u8>,
}

/// Canonical well-formedness: every fraction digit is a digit and the
/// fraction carries no trailing zero.
pub open spec fn dec_v_wf(v: DecV) -> bool {
    &&& forall|i: int| 0 <= i < v.frac.len() ==> v.frac[i] < 10
    &&& v.frac.len() > 0 ==> v.frac.last() != 0
}

pub open spec fn dec_zero_v() -> DecV {
    DecV { units: 0, frac: Seq::empty() }
}

/// What a decimal string denotes: its canonical value, or nothing when
/// the string is malformed or its integer part exceeds the machine word.
pub open spec fn dec_parse_v(s: Seq<char>) -> Option<DecV> {
    if dec_str_valid(s) && scan_dec(s).unwrap().units <= u64::MAX {
        Some(
            DecV {
                units: scan_dec(s).unwrap().units,
                frac: strip_zeros(scan_dec(s).unwrap().frac),
            },
        )
    } else {
        None
    }
}

// ---------------------------------------------------------------------
// Numeric order on canonical values
// ---------------------------------------------------------------------

/// Numeric order on canonical fraction digit strings: compare digit by
/// digit; a proper prefix is smaller than its canonical extension, whose
/// extra digits end in a nonzero one.
pub open spec fn frac_lt(a: Seq<u8>, b: Seq<u8>) -> bool
    decreases a.len() + b.len(),
{
    if b.len() == 0 {
        false
    } else if a.len() == 0 {
        true
    } else if a[0] < b[0] {
        true
    } else if a[0] > b[0] {
        false
    } else {
        frac_lt(a.drop_first(), b.drop_first())
    }
}

/// Numeric order on canonical decimal values.
pub open spec fn dec_lt_v(a: DecV, b: DecV) -> bool {
    a.units < b.units || (a.units == b.units && frac_lt(a.frac, b.frac))
}

pub proof fn lemma_frac_lt_asymm(a: Seq<u8>, b: Seq<u8>)
    requires
        frac_lt(a, b),
    ensures
        !frac_lt(b, a),
    decreases a.len() + b.len(),
{
    if b.len() == 0 {
    } else if a.len() == 0 {
    } else if a[0] < b[0] || a[0] > b[0] {
    } else {
        lemma_frac_lt_asymm(a.drop_first(), b.drop_first());
    }
}

pub proof fn lemma_frac_lt_total(a: Seq<u8>, b: Seq<u8>)
    requires
        !frac_lt(a, b),
        !frac_lt(b, a),
    ensures
        a == b,
    decreases a.len() + b.len(),
{
    if b.len() == 0 {
        if a.len() != 0 {
            assert(frac_lt(b, a));
        }
        assert(a =~= b);
    } else if a.len() == 0 {
    } else if a[0] < b[0] || a[0] > b[0] {
    } else {
        lemma_frac_lt_total(a.drop_first(), b.drop_first());
        assert(a =~= seq![a[0]] + a.drop_first());
        assert(b =~= seq![b[0]] + b.drop_first());
    }
}

pub proof fn lemma_frac_lt_trans(a: Seq<u8>, b: Seq<u8>, c: Seq<u8>)
    requires
        frac_lt(a, b),
        frac_lt(b, c),
    ensures
        frac_lt(a, c),
    decreases a.len() + b.len() + c.len(),
{
    if b.len() == 0 || c.len() == 0 {
    } else if a.len() == 0 {
    } else {
        if a[0] == b[0] && b[0] == c[0] {
            lemma_frac_lt_trans(a.drop_first(), b.drop_first(), c.drop_first());
        }
    }
}

pub proof fn lemma_dec_lt_asymm(a: DecV, b: DecV)
    requires
        dec_lt_v(a, b),
    ensures
        !dec_lt_v(b, a),
{
    if a.units == b.units {
        lemma_frac_lt_asymm(a.frac, b.frac);
    }
}

pub proof fn lemma_dec_lt_irrefl(a: DecV)
    ensures
        !dec_lt_v(a, a),
{
    if dec_lt_v(a, a) {
        lemma_dec_lt_asymm(a, a);
    }
}

pub proof fn lemma_dec_lt_total(a: DecV, b: DecV)
    requires
        !dec_lt_v(a, b),
        !dec_lt_v(b, a),
    ensures
        a == b,
{
    lemma_frac_lt_total(a.frac, b.frac);
}

pub proof fn lemma_dec_lt_trans(a: DecV, b: DecV, c: DecV)
    requires
        dec_lt_v(a, b),
        dec_lt_v(b, c),
    ensures
        dec_lt_v(a, c),
{
    if a.units == b.units && b.units == c.units {
        lemma_frac_lt_trans(a.frac, b.frac, c.frac);
    }
}

// ---------------------------------------------------------------------
// The executable type
// ---------------------------------------------------------------------

/// A parsed decimal in canonical form.
pub struct Dec {
    /// The integer part.
    pub units: u64,
    /// The fraction digits, values 0 through 9, no trailing zero.
    pub frac: Vec<u8>,
}

impl Dec {
    /// The canonical value this decimal stands for.
    pub open spec fn view_v(&self) -> DecV {
        DecV { units: self.units as nat, frac: self.frac@ }
    }

    pub open spec fn wf(&self) -> bool {
        dec_v_wf(self.view_v())
    }

    /// Whether this decimal is exactly zero.
    pub fn is_zero(&self) -> (r: bool)
        ensures
            r == (self.view_v() == dec_zero_v()),
    {
        let r = self.units == 0 && self.frac.len() == 0;
        proof {
            if self.frac@.len() == 0 {
                assert(self.frac@ =~= Seq::<u8>::empty());
            }
        }
        r
    }

    /// An equal copy.
    pub fn duplicate(&self) -> (r: Dec)
        ensures
            r.view_v() == self.view_v(),
    {
        Dec { units: self.units, frac: copy_u8_vec(&self.frac) }
    }
}

pub(crate) fn copy_u8_vec(v: &Vec<u8>) -> (r: Vec<u8>)
    ensures
        r@ == v@,
{
    let mut r: Vec<u8> = Vec::new();
    let mut i: usize = 0;
    while i < v.len()
        invariant
            i <= v@.len(),
            r@ == v@.subrange(0, i as int),
        decreases v@.len() - i,
    {
        r.push(v[i]);
        proof {
            assert(r@ =~= v@.subrange(0, (i + 1) as int));
        }
        i += 1;
    }
    proof {
        assert(r@ =~= v@);
    }
    r
}

// ---------------------------------------------------------------------
// Lemmas about the scan
// ---------------------------------------------------------------------

/// Every prefix of a string whose scan succeeds also scans, with an
/// integer part no larger than the whole string's, and a dot seen in the
/// prefix stays seen.
pub proof fn lemma_scan_prefix(s: Seq<char>, i: int)
    requires
        0 <= i <= s.len(),
        scan_dec(s) is Some,
    ensures
        scan_dec(s.subrange(0, i)) is Some,
        scan_dec(s).unwrap().units >= scan_dec(s.subrange(0, i)).unwrap().units,
        scan_dec(s.subrange(0, i)).unwrap().dot ==> scan_dec(s).unwrap().dot,
    decreases s.len(),
{
    if i == s.len() {
        assert(s.subrange(0, i) =~= s);
    } else {
        let t = s.drop_last();
        assert(scan_dec(t) is Some);
        lemma_scan_prefix(t, i);
        assert(t.subrange(0, i) =~= s.subrange(0, i));
        let st = scan_dec(t).unwrap();
        assert(scan_dec(s) == scan_step(st, s.last()));
        assert(scan_dec(s).unwrap().units >= st.units);
    }
}

/// A scan that has failed on a prefix fails on the whole string.
pub proof fn lemma_scan_none_extends(s: Seq<char>, i: int)
    requires
        0 <= i <= s.len(),
        scan_dec(s.subrange(0, i)) is None,
    ensures
        scan_dec(s) is None,
    decreases s.len(),
{
    if i == s.len() {
        assert(s.subrange(0, i) =~= s);
    } else {
        let t = s.drop_last();
        assert(t.subrange(0, i) =~= s.subrange(0, i));
        lemma_scan_none_extends(t, i);
    }
}

// ---------------------------------------------------------------------
// Parsing
// ---------------------------------------------------------------------

/// Parse a decimal string into canonical form.
///
/// Returns the canonical value exactly when the string matches the
/// grammar (digits, optionally a dot and digits) and its integer part
/// fits a machine word; otherwise nothing.
pub fn parse_dec(s: &str) -> (r: Option<Dec>)
    ensures
        match r {
            Some(d) => dec_parse_v(s@) == Some(d.view_v()) && d.wf(),
            None => dec_parse_v(s@) is None,
        },
{
    let n = s.unicode_len();
    let mut units: u64 = 0;
    let mut int_digits: usize = 0;
    let mut frac: Vec<u8> = Vec::new();
    let mut dot = false;
    let mut i: usize = 0;
    proof {
        assert(s@.subrange(0, 0) =~= Seq::<char>::empty());
    }
    while i < n
        invariant
            i <= n,
            n == s@.len(),
            int_digits <= i,
            scan_dec(s@.subrange(0, i as int)) == Some(
                DecScan {
                    units: units as nat,
                    int_digits: int_digits as nat,
                    frac: frac@,
                    dot,
                },
            ),
            forall|k: int| 0 <= k < frac@.len() ==> frac@[k] < 10,
        decreases n - i,
    {
        let c = s.get_char(i);
        let u = c as u32;
        proof {
            assert(s@.subrange(0, (i + 1) as int).drop_last() =~= s@.subrange(0, i as int));
            assert(s@.subrange(0, (i + 1) as int).last() == s@[i as int]);
        }
        if 48 <= u && u <= 57 {
            let d = (u - 48) as u8;
            if dot {
                frac.push(d);
            } else {
                let stepped = match units.checked_mul(10) {
                    Some(m) => m.checked_add(d as u64),
                    None => None,
                };
                match stepped {
                    Some(v) => {
                        units = v;
                        int_digits += 1;
                    },
                    None => {
                        // The integer part no longer fits a machine word;
                        // it can only grow with further digits.
                        proof {
                            if scan_dec(s@) is Some {
                                lemma_scan_prefix(s@, (i + 1) as int);
                            }
                        }
                        return None;
                    },
                }
            }
        } else if u == 46 && !dot {
            // '.'
            dot = true;
        } else {
            proof {
                lemma_scan_none_extends(s@, (i + 1) as int);
            }
            return None;
        }
        i += 1;
    }
    proof {
        assert(s@.subrange(0, n as int) =~= s@);
    }
    if int_digits == 0 || (dot && frac.len() == 0) {
        return None;
    }
    let ghost scanned_frac = frac@;
    loop
        invariant
            strip_zeros(scanned_frac) == strip_zeros(frac@),
            forall|k: int| 0 <= k < frac@.len() ==> frac@[k] < 10,
        ensures
            strip_zeros(scanned_frac) == strip_zeros(frac@),
            forall|k: int| 0 <= k < frac@.len() ==> frac@[k] < 10,
            frac@.len() == 0 || frac@.last() != 0,
        decreases frac@.len(),
    {
        if frac.len() == 0 {
            break;
        }
        if frac[frac.len() - 1] != 0 {
            break;
        }
        proof {
            assert(strip_zeros(frac@) == strip_zeros(frac@.drop_last()));
        }
        let ghost before = frac@;
        frac.pop();
        proof {
            assert(frac@ =~= before.drop_last());
        }
    }
    proof {
        assert(strip_zeros(frac@) == frac@);
    }
    Some(Dec { units, frac })
}

// ---------------------------------------------------------------------
// Sequence identifiers
// ---------------------------------------------------------------------

/// What a sequence-identifier string denotes: its numeric value, or
/// nothing when it is not a plain digit string fitting a machine word.
/// Order among sequence identifiers is numeric, never lexicographic.
pub open spec fn seq_id_parse_v(s: Seq<char>) -> Option<nat> {
    match scan_dec(s) {
        None => None,
        Some(st) => if !st.dot && st.int_digits > 0 && st.units <= u64::MAX {
            Some(st.units)
        } else {
            None
        },
    }
}

/// Parse a sequence identifier: one or more digits, valued numerically.
pub fn parse_seq_id(s: &str) -> (r: Option<u64>)
    ensures
        match r {
            Some(v) => seq_id_parse_v(s@) == Some(v as nat),
            None => seq_id_parse_v(s@) is None,
        },
{
    let n = s.unicode_len();
    let mut val: u64 = 0;
    let mut i: usize = 0;
    proof {
        assert(s@.subrange(0, 0) =~= Seq::<char>::empty());
    }
    while i < n
        invariant
            i <= n,
            n == s@.len(),
            scan_dec(s@.subrange(0, i as int)) == Some(
                DecScan { units: val as nat, int_digits: i as nat, frac: Seq::empty(), dot: false },
            ),
        decreases n - i,
    {
        let c = s.get_char(i);
        let u = c as u32;
        proof {
            assert(s@.subrange(0, (i + 1) as int).drop_last() =~= s@.subrange(0, i as int));
            assert(s@.subrange(0, (i + 1) as int).last() == s@[i as int]);
        }
        if 48 <= u && u <= 57 {
            let d = (u - 48) as u8;
            let stepped = match val.checked_mul(10) {
                Some(m) => m.checked_add(d as u64),
                None => None,
            };
            match stepped {
                Some(v) => {
                    val = v;
                },
                None => {
                    proof {
                        if scan_dec(s@) is Some {
                            lemma_scan_prefix(s@, (i + 1) as int);
                        }
                    }
                    return None;
                },
            }
        } else {
            proof {
                if scan_dec(s@) is Some {
                    lemma_scan_prefix(s@, (i + 1) as int);
                }
            }
            return None;
        }
        i += 1;
    }
    proof {
        assert(s@.subrange(0, n as int) =~= s@);
    }
    if i == 0 {
        return None;
    }
    Some(val)
}

// ---------------------------------------------------------------------
// Executable comparison
// ---------------------------------------------------------------------

fn frac_lt_exec(a: &Vec<u8>, b: &Vec<u8>) -> (r: bool)
    ensures
        r == frac_lt(a@, b@),
{
    let mut i: usize = 0;
    proof {
        assert(a@.skip(0) =~= a@);
        assert(b@.skip(0) =~= b@);
    }
    loop
        invariant
            i <= a@.len(),
            i <= b@.len(),
            frac_lt(a@, b@) == frac_lt(a@.skip(i as int), b@.skip(i as int)),
        decreases a@.len() - i,
    {
        if i == b.len() {
            proof {
                assert(b@.skip(i as int) =~= Seq::<u8>::empty());
            }
            return false;
        }
        if i == a.len() {
            proof {
                assert(a@.skip(i as int) =~= Seq::<u8>::empty());
                assert(b@.skip(i as int).len() > 0);
            }
            return true;
        }
        let x = a[i];
        let y = b[i];
        proof {
            assert(a@.skip(i as int)[0] == a@[i as int]);
            assert(b@.skip(i as int)[0] == b@[i as int]);
        }
        if x < y {
            return true;
        }
        if x > y {
            return false;
        }
        proof {
            assert(a@.skip(i as int).drop_first() =~= a@.skip(i as int + 1));
            assert(b@.skip(i as int).drop_first() =~= b@.skip(i as int + 1));
        }
        i += 1;
    }
}

impl Dec {
    /// Numeric strictly-less-than.
    pub fn lt(&self, other: &Dec) -> (r: bool)
        ensures
            r == dec_lt_v(self.view_v(), other.view_v()),
    {
        if self.units < other.units {
            true
        } else if self.units > other.units {
            false
        } else {
            frac_lt_exec(&self.frac, &other.frac)
        }
    }

    /// Numeric equality of canonical values.
    pub fn eq_dec(&self, other: &Dec) -> (r: bool)
        ensures
            r == (self.view_v() == other.view_v()),
    {
        let r = !self.lt(other) && !other.lt(self);
        proof {
            if r {
                lemma_dec_lt_total(self.view_v(), other.view_v());
            } else {
                if dec_lt_v(self.view_v(), other.view_v()) {
                    lemma_dec_lt_asymm(self.view_v(), other.view_v());
                } else {
                    lemma_dec_lt_asymm(other.view_v(), self.view_v());
                }
            }
        }
        r
    }
}

} // verus!
