//! Calendar dates as plain year / month / day values.

use vstd::prelude::*;

verus! {

/// A calendar date, without a time component.
///
/// Holds the date as plain numbers so that ordering and formatting can be
/// reasoned about directly. `valid()` bounds the fields to what a
/// four-digit date label can carry.
#[derive(Clone, Copy, PartialEq, Eq, Structural, Debug)]
pub struct Date {
    pub year: u16,
    pub month: u8,
    pub day: u8,
}

impl Date {
    /// The fields describe a date that fits the `YYYY-MM-DD` label shape.
    pub open spec fn valid(self) -> bool {
        self.year <= 9999 && 1 <= self.month <= 12 && 1 <= self.day <= 31
    }

    /// A single number that orders dates chronologically.
    pub open spec fn key(self) -> int {
        self.year * 10000 + self.month * 100 + self.day
    }

    /// Chronological comparison: `self` on or before `other`.
    pub fn on_or_before(&self, other: &Date) -> (r: bool)
        ensures
            r == (self.key() <= other.key()),
    {
        let a: u32 = (self.year as u32) * 10000 + (self.month as u32) * 100 + (self.day as u32);
        let b: u32 = (other.year as u32) * 10000 + (other.month as u32) * 100 + (other.day as u32);
        a <= b
    }
}

/// The ASCII digit for `v`, which must be below ten.
pub open spec fn digit(v: int) -> u8
    recommends
        0 <= v < 10,
{
    (48 + v) as u8
}

/// The `YYYY-MM-DD` label of a date, as ASCII bytes.
pub open spec fn date_label(d: Date) -> Seq<u8> {
    seq![
        digit(d.year as int / 1000 % 10),
        digit(d.year as int / 100 % 10),
        digit(d.year as int / 10 % 10),
        digit(d.year as int % 10),
        45u8,
        digit(d.month as int / 10 % 10),
        digit(d.month as int % 10),
        45u8,
        digit(d.day as int / 10 % 10),
        digit(d.day as int % 10),
    ]
}

/// Lexicographic order on byte strings.
pub open spec fn lex_le(a: Seq<u8>, b: Seq<u8>) -> bool
    decreases a.len(),
{
    if a.len() == 0 {
        true
    } else if b.len() == 0 {
        false
    } else if a[0] < b[0] {
        true
    } else if a[0] > b[0] {
        false
    } else {
        lex_le(a.skip(1), b.skip(1))
    }
}

proof fn lemma_lex_le_refl(a: Seq<u8>)
    ensures
        lex_le(a, a),
    decreases a.len(),
{
    if a.len() > 0 {
        lemma_lex_le_refl(a.skip(1));
    }
}

proof fn lemma_lex_le_strict(a: Seq<u8>, b: Seq<u8>, k: int)
    requires
        a.len() == b.len(),
        0 <= k < a.len(),
        forall|j: int| 0 <= j < k ==> a[j] == b[j],
        a[k] < b[k],
    ensures
        lex_le(a, b),
        !lex_le(b, a),
    decreases k,
{
    if k > 0 {
        assert(a[0] == b[0]);
        assert forall|j: int| 0 <= j < k - 1 implies a.skip(1)[j] == b.skip(1)[j] by {
            assert(a.skip(1)[j] == a[j + 1] && b.skip(1)[j] == b[j + 1]);
        }
        assert(a.skip(1)[k - 1] == a[k] && b.skip(1)[k - 1] == b[k]);
        lemma_lex_le_strict(a.skip(1), b.skip(1), k - 1);
    }
}

#[verifier::rlimit(100)]
proof fn lemma_label_lt(a: Date, b: Date)
    requires
        a.valid(),
        b.valid(),
        a.key() < b.key(),
    ensures
        lex_le(date_label(a), date_label(b)),
        !lex_le(date_label(b), date_label(a)),
{
    let la = date_label(a);
    let lb = date_label(b);
    assert(a.year < b.year || (a.year == b.year && a.month < b.month) || (a.year == b.year
        && a.month == b.month && a.day < b.day));
    if a.year < b.year {
        let ya = a.year as int;
        let yb = b.year as int;
        if ya / 1000 != yb / 1000 {
            assert(ya / 1000 < yb / 1000);
            lemma_lex_le_strict(la, lb, 0);
        } else if ya / 100 != yb / 100 {
            assert(ya / 100 < yb / 100);
            assert(ya / 100 == 10 * (ya / 1000) + ya / 100 % 10);
            assert(yb / 100 == 10 * (yb / 1000) + yb / 100 % 10);
            lemma_lex_le_strict(la, lb, 1);
        } else if ya / 10 != yb / 10 {
            assert(ya / 10 < yb / 10);
            assert(ya / 10 == 10 * (ya / 100) + ya / 10 % 10);
            assert(yb / 10 == 10 * (yb / 100) + yb / 10 % 10);
            lemma_lex_le_strict(la, lb, 2);
        } else {
            assert(ya == 10 * (ya / 10) + ya % 10);
            assert(yb == 10 * (yb / 10) + yb % 10);
            assert(ya % 10 < yb % 10);
            lemma_lex_le_strict(la, lb, 3);
        }
    } else if a.month < b.month {
        let ma = a.month as int;
        let mb = b.month as int;
        if ma / 10 != mb / 10 {
            assert(ma / 10 < mb / 10);
            lemma_lex_le_strict(la, lb, 5);
        } else {
            assert(ma == 10 * (ma / 10) + ma % 10);
            assert(mb == 10 * (mb / 10) + mb % 10);
            assert(ma % 10 < mb % 10);
            lemma_lex_le_strict(la, lb, 6);
        }
    } else {
        let da = a.day as int;
        let db = b.day as int;
        if da / 10 != db / 10 {
            assert(da / 10 < db / 10);
            lemma_lex_le_strict(la, lb, 8);
        } else {
            assert(da == 10 * (da / 10) + da % 10);
            assert(db == 10 * (db / 10) + db % 10);
            assert(da % 10 < db % 10);
            lemma_lex_le_strict(la, lb, 9);
        }
    }
}

/// Date labels sort exactly as their dates: for valid dates, the
/// `YYYY-MM-DD` labels compare lexicographically as the dates compare
/// chronologically.
pub proof fn lemma_label_order(a: Date, b: Date)
    requires
        a.valid(),
        b.valid(),
    ensures
        lex_le(date_label(a), date_label(b)) <==> a.key() <= b.key(),
{
    if a.key() == b.key() {
        assert(a.year == b.year && a.month == b.month && a.day == b.day);
        assert(date_label(a) =~= date_label(b));
        lemma_lex_le_refl(date_label(a));
    } else if a.key() < b.key() {
        lemma_label_lt(a, b);
    } else {
        lemma_label_lt(b, a);
    }
}

/// Formats a date as its `YYYY-MM-DD` label.
pub fn format_date(d: &Date) -> (r: Vec<u8>)
    requires
        d.valid(),
    ensures
        r@ == date_label(*d),
{
    let mut r: Vec<u8> = Vec::new();
    r.push(48 + (d.year / 1000 % 10) as u8);
    r.push(48 + (d.year / 100 % 10) as u8);
    r.push(48 + (d.year / 10 % 10) as u8);
    r.push(48 + (d.year % 10) as u8);
    r.push(45);
    r.push(48 + d.month / 10 % 10);
    r.push(48 + d.month % 10);
    r.push(45);
    r.push(48 + d.day / 10 % 10);
    r.push(48 + d.day % 10);
    proof {
        assert(r@ =~= date_label(*d));
    }
    r
}

} // verus!
