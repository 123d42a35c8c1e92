//! Numeric sample values, held exactly as scaled decimals.
//!
//! A value token is a plain decimal literal: an optional sign, digits, and
//! at most one decimal point, with at least one digit and at most 17
//! digits in all. Such a token denotes `mantissa / 10^scale` exactly,
//! where `scale` is the number of fraction digits, so every later
//! computation on values can be exact integer arithmetic.

use vstd::prelude::*;

verus! {

/// A sample's numeric value: the exact rational `mantissa / 10^scale`.
#[derive(Clone, Copy, PartialEq, Eq, Structural, Debug)]
pub struct Value {
    pub mantissa: i64,
    pub scale: u32,
}

impl Value {
    /// Bounds that every parsed value meets: at most 17 digits of
    /// mantissa and at most 17 fraction digits.
    pub open spec fn valid(self) -> bool {
        &&& -100_000_000_000_000_000 <= self.mantissa <= 100_000_000_000_000_000
        &&& self.scale <= 17
    }
}

/// Powers of ten.
pub open spec fn pow10(k: nat) -> nat
    decreases k,
{
    if k == 0 {
        1
    } else {
        10 * pow10((k - 1) as nat)
    }
}

pub proof fn lemma_pow10_pos(k: nat)
    ensures
        pow10(k) >= 1,
    decreases k,
{
    if k > 0 {
        lemma_pow10_pos((k - 1) as nat);
    }
}

pub proof fn lemma_pow10_adds(a: nat, b: nat)
    ensures
        pow10(a + b) == pow10(a) * pow10(b),
    decreases a,
{
    if a == 0 {
        assert(pow10(b) == 1 * pow10(b));
    } else {
        lemma_pow10_adds((a - 1) as nat, b);
        assert((a + b - 1) as nat == (a - 1) as nat + b);
        assert(10 * (pow10((a - 1) as nat) * pow10(b)) == (10 * pow10((a - 1) as nat)) * pow10(
            b,
        )) by (nonlinear_arith);
    }
}

pub proof fn lemma_pow10_mono(a: nat, b: nat)
    requires
        a <= b,
    ensures
        pow10(a) <= pow10(b),
{
    lemma_pow10_adds(a, (b - a) as nat);
    lemma_pow10_pos(a);
    lemma_pow10_pos((b - a) as nat);
    assert(pow10(a) * 1 <= pow10(a) * pow10((b - a) as nat)) by (nonlinear_arith)
        requires
            pow10(a) >= 1,
            pow10((b - a) as nat) >= 1,
    ;
}

/// The small powers of ten that the executable code leans on.
pub proof fn lemma_pow10_small()
    ensures
        pow10(16) == 10_000_000_000_000_000,
        pow10(17) == 100_000_000_000_000_000,
{
    reveal_with_fuel(pow10, 18);
}

/// An ASCII decimal digit.
pub open spec fn is_digit(c: u8) -> bool {
    48 <= c <= 57
}

pub open spec fn all_digits(s: Seq<u8>) -> bool {
    forall|k: int| 0 <= k < s.len() ==> is_digit(#[trigger] s[k])
}

/// The number a digit string denotes, most significant digit first.
pub open spec fn digits_val(s: Seq<u8>) -> nat
    decreases s.len(),
{
    if s.len() == 0 {
        0
    } else {
        digits_val(s.drop_last()) * 10 + (if is_digit(s.last()) {
            (s.last() - 48) as nat
        } else {
            0
        })
    }
}

pub proof fn lemma_digits_val_push(s: Seq<u8>, c: u8)
    requires
        is_digit(c),
    ensures
        digits_val(s.push(c)) == digits_val(s) * 10 + (c - 48),
{
    let t = s.push(c);
    assert(t.drop_last() =~= s);
    assert(t.last() == c);
}

pub proof fn lemma_digits_val_bound(s: Seq<u8>)
    ensures
        digits_val(s) < pow10(s.len()),
    decreases s.len(),
{
    if s.len() == 0 {
    } else {
        lemma_digits_val_bound(s.drop_last());
    }
}

/// How many leading bytes the optional sign takes.
pub open spec fn sign_len(s: Seq<u8>) -> int {
    if s.len() > 0 && (s[0] == 45 || s[0] == 43) {
        1
    } else {
        0
    }
}

/// Whether the token carries a minus sign.
pub open spec fn is_neg(s: Seq<u8>) -> bool {
    s.len() > 0 && s[0] == 45
}

/// The token without its sign.
pub open spec fn body_of(s: Seq<u8>) -> Seq<u8> {
    s.skip(sign_len(s))
}

/// The index of the first decimal point in `b`, or `b.len()` if none.
pub open spec fn dot_index(b: Seq<u8>) -> int
    decreases b.len(),
{
    if b.len() == 0 {
        0
    } else if b[0] == 46 {
        0
    } else {
        1 + dot_index(b.skip(1))
    }
}

pub proof fn lemma_dot_index_props(b: Seq<u8>)
    ensures
        0 <= dot_index(b) <= b.len(),
        dot_index(b) < b.len() ==> b[dot_index(b)] == 46,
        forall|k: int| 0 <= k < dot_index(b) ==> #[trigger] b[k] != 46,
    decreases b.len(),
{
    if b.len() == 0 || b[0] == 46 {
    } else {
        lemma_dot_index_props(b.skip(1));
        assert forall|k: int| 0 <= k < dot_index(b) implies #[trigger] b[k] != 46 by {
            if k > 0 {
                assert(b.skip(1)[k - 1] == b[k]);
            }
        }
        if dot_index(b) < b.len() {
            assert(b.skip(1)[dot_index(b) - 1] == b[dot_index(b)]);
        }
    }
}

/// A first decimal point at `d` pins `dot_index` to `d`.
pub proof fn lemma_dot_index_at(b: Seq<u8>, d: int)
    requires
        0 <= d < b.len(),
        b[d] == 46,
        forall|k: int| 0 <= k < d ==> #[trigger] b[k] != 46,
    ensures
        dot_index(b) == d,
{
    lemma_dot_index_props(b);
    if dot_index(b) < d {
        assert(b[dot_index(b)] != 46);
    }
}

/// No decimal point among the first `m` bytes keeps `dot_index` at or past `m`.
pub proof fn lemma_dot_index_ge(b: Seq<u8>, m: int)
    requires
        0 <= m <= b.len(),
        forall|k: int| 0 <= k < m ==> #[trigger] b[k] != 46,
    ensures
        dot_index(b) >= m,
{
    lemma_dot_index_props(b);
    if dot_index(b) < m {
        assert(b[dot_index(b)] != 46);
    }
}

/// The digits before the decimal point.
pub open spec fn int_digits(s: Seq<u8>) -> Seq<u8> {
    body_of(s).take(dot_index(body_of(s)))
}

/// The digits after the decimal point.
pub open spec fn frac_digits(s: Seq<u8>) -> Seq<u8> {
    let b = body_of(s);
    if dot_index(b) == b.len() {
        Seq::empty()
    } else {
        b.skip(dot_index(b) + 1)
    }
}

/// Every digit of the token, the decimal point dropped.
pub open spec fn token_digits(s: Seq<u8>) -> Seq<u8> {
    int_digits(s) + frac_digits(s)
}

/// The value grammar: an optional sign, then digits with at most one
/// decimal point and at least one digit.
pub open spec fn number_token(s: Seq<u8>) -> bool {
    &&& all_digits(int_digits(s))
    &&& all_digits(frac_digits(s))
    &&& token_digits(s).len() >= 1
}

/// What a value token denotes: its exact scaled-decimal reading, or
/// nothing if the token is malformed or carries more than 17 digits.
pub open spec fn value_of(s: Seq<u8>) -> Option<Value> {
    if number_token(s) && token_digits(s).len() <= 17 {
        let m = digits_val(token_digits(s)) as int;
        let mi: int = if is_neg(s) {
            -m
        } else {
            m
        };
        Some(Value { mantissa: mi as i64, scale: frac_digits(s).len() as u32 })
    } else {
        None
    }
}

/// Every parsed value sits within the mantissa and scale bounds.
pub proof fn lemma_value_of_valid(s: Seq<u8>)
    ensures
        value_of(s) matches Some(v) ==> v.valid(),
{
    if value_of(s) is Some {
        lemma_digits_val_bound(token_digits(s));
        lemma_pow10_mono(token_digits(s).len(), 17);
        lemma_pow10_small();
    }
}

/// Parses one value token, exactly as `value_of` reads it.
pub fn parse_value(tok: &Vec<u8>) -> (r: Option<Value>)
    ensures
        r == value_of(tok@),
        r matches Some(v) ==> v.valid(),
{
    proof {
        lemma_value_of_valid(tok@);
        lemma_pow10_small();
    }
    let n: usize = tok.len();
    let ghost b = body_of(tok@);
    let mut i: usize = 0;
    let mut neg: bool = false;
    if n > 0 && (tok[0] == 45 || tok[0] == 43) {
        neg = tok[0] == 45;
        i = 1;
    }
    assert(i == sign_len(tok@));
    assert(neg == is_neg(tok@));
    let ghost sl = sign_len(tok@);
    let mut acc: u64 = 0;
    let mut ndig: usize = 0;
    let mut fraclen: u32 = 0;
    let mut seen_dot: bool = false;
    let ghost mut dpos: int = 0;
    while i < n
        invariant
            sl == sign_len(tok@),
            neg == is_neg(tok@),
            b == body_of(tok@),
            n == tok@.len(),
            b.len() == n - sl,
            sl <= i <= n,
            ndig <= 17,
            fraclen <= ndig,
            acc < pow10(ndig as nat),
            pow10(16) == 10_000_000_000_000_000,
            pow10(17) == 100_000_000_000_000_000,
            !seen_dot ==> {
                &&& forall|k: int| 0 <= k < i - sl ==> is_digit(#[trigger] b[k])
                &&& acc == digits_val(b.take(i - sl))
                &&& ndig == i - sl
                &&& fraclen == 0
            },
            seen_dot ==> {
                &&& 0 <= dpos < i - sl
                &&& b[dpos] == 46
                &&& forall|k: int| 0 <= k < dpos ==> is_digit(#[trigger] b[k])
                &&& forall|k: int| dpos < k < i - sl ==> is_digit(#[trigger] b[k])
                &&& acc == digits_val(b.take(dpos) + b.subrange(dpos + 1, i - sl))
                &&& ndig == i - sl - 1
                &&& fraclen == i - sl - 1 - dpos
            },
        decreases n - i,
    {
        let c: u8 = tok[i];
        let ghost j = i - sl;
        assert(b[j] == c);
        if c == 46 {
            if seen_dot {
                proof {
                    lemma_dot_index_at(b, dpos);
                    assert(frac_digits(tok@)[j - dpos - 1] == b[j]);
                    assert(!all_digits(frac_digits(tok@)));
                }
                return None;
            }
            seen_dot = true;
            proof {
                dpos = j;
                assert(b.take(dpos) + b.subrange(dpos + 1, dpos + 1) =~= b.take(dpos));
            }
        } else if 48 <= c && c <= 57 {
            if ndig >= 17 {
                proof {
                    // An eighteenth digit puts the token past the digit cap,
                    // whatever else it holds.
                    if seen_dot {
                        lemma_dot_index_at(b, dpos);
                        assert(frac_digits(tok@).len() >= j - dpos);
                        assert(int_digits(tok@).len() == dpos);
                    } else {
                        lemma_dot_index_ge(b, j + 1);
                        lemma_dot_index_props(b);
                        assert(int_digits(tok@).len() >= j + 1);
                    }
                    assert(token_digits(tok@).len() >= 18);
                }
                return None;
            }
            proof {
                lemma_pow10_mono((ndig + 1) as nat, 17);
                if !seen_dot {
                    assert(b.take(j + 1) =~= b.take(j).push(c));
                    lemma_digits_val_push(b.take(j), c);
                } else {
                    assert(b.take(dpos) + b.subrange(dpos + 1, j + 1) =~= (b.take(dpos)
                        + b.subrange(dpos + 1, j)).push(c));
                    lemma_digits_val_push(b.take(dpos) + b.subrange(dpos + 1, j), c);
                }
            }
            acc = acc * 10 + ((c - 48) as u64);
            ndig = ndig + 1;
            if seen_dot {
                fraclen = fraclen + 1;
            }
        } else {
            proof {
                if seen_dot {
                    lemma_dot_index_at(b, dpos);
                    assert(frac_digits(tok@)[j - dpos - 1] == b[j]);
                    assert(!all_digits(frac_digits(tok@)));
                } else {
                    assert forall|k: int| 0 <= k < j + 1 implies #[trigger] b[k] != 46 by {
                        if k < j {
                            assert(is_digit(b[k]));
                        }
                    }
                    lemma_dot_index_ge(b, j + 1);
                    lemma_dot_index_props(b);
                    assert(int_digits(tok@)[j] == b[j]);
                    assert(!all_digits(int_digits(tok@)));
                }
            }
            return None;
        }
        i = i + 1;
    }
    proof {
        if seen_dot {
            lemma_dot_index_at(b, dpos);
            assert(b.subrange(dpos + 1, b.len() as int) =~= b.skip(dpos + 1));
            assert(token_digits(tok@) =~= b.take(dpos) + b.subrange(dpos + 1, b.len() as int));
        } else {
            lemma_dot_index_ge(b, b.len() as int);
            lemma_dot_index_props(b);
            assert(int_digits(tok@) =~= b.take(b.len() as int));
            assert(b.take(b.len() as int) =~= b);
            assert(token_digits(tok@) =~= b);
        }
        assert(token_digits(tok@).len() == ndig);
        assert(digits_val(token_digits(tok@)) == acc);
    }
    if ndig == 0 {
        assert(!number_token(tok@));
        return None;
    }
    assert(number_token(tok@));
    proof {
        lemma_pow10_mono(ndig as nat, 17);
        assert(acc <= 100_000_000_000_000_000);
    }
    let mantissa: i64 = if neg {
        -(acc as i64)
    } else {
        acc as i64
    };
    Some(Value { mantissa, scale: fraclen })
}

} // verus!
