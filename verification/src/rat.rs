use vstd::prelude::*;

verus! {

/// An exact rational number `num / den`.
///
/// Scores are kept as exact fractions rather than approximate machine reals:
/// every arithmetic step either returns the mathematically exact value or
/// reports that it does not fit (see `rat_add` / `rat_div`), so a score is
/// always a well-defined number — there is no "not a number" value to guard
/// against downstream.
///
/// A well-formed value has `den >= 1`. Fractions are not reduced: two values
/// may denote the same number with different fields, and contracts therefore
/// compare by value (`rat_eq`, `rat_le`), never by fields.
#[derive(Clone, Copy, Debug)]
pub struct Rat {
    pub num: i64,
    pub den: u64,
}

/// Well-formedness: the denominator is positive.
pub open spec fn rat_wf(a: Rat) -> bool {
    a.den >= 1
}

/// Value equality: `a.num / a.den == b.num / b.den`, by cross-multiplication.
pub open spec fn rat_eq(a: Rat, b: Rat) -> bool {
    a.num * b.den == b.num * a.den
}

/// Value order: `a.num / a.den <= b.num / b.den`, by cross-multiplication.
/// Meaningful only for well-formed values.
pub open spec fn rat_le(a: Rat, b: Rat) -> bool {
    a.num * b.den <= b.num * a.den
}

/// Exact sum of two rationals, or `None` when a field of the exact
/// (unreduced) result does not fit its machine type.
pub open spec fn rat_add(a: Rat, b: Rat) -> Option<Rat> {
    let n = a.num * b.den + b.num * a.den;
    let d = a.den * b.den;
    if i64::MIN <= n <= i64::MAX && d <= u64::MAX {
        Some(Rat { num: n as i64, den: d as u64 })
    } else {
        None
    }
}

/// Exact quotient of a rational by a positive integer, or `None` when the
/// denominator of the exact result does not fit its machine type.
pub open spec fn rat_div(a: Rat, k: u64) -> Option<Rat> {
    let d = a.den * k;
    if d <= u64::MAX {
        Some(Rat { num: a.num, den: d as u64 })
    } else {
        None
    }
}

impl Rat {
    /// The rational `num / den`; `None` when `den` is zero.
    pub fn new(num: i64, den: u64) -> (r: Option<Rat>)
        ensures
            den >= 1 ==> r == Some(Rat { num, den }),
            den == 0 ==> r is None,
    {
        if den >= 1 {
            Some(Rat { num, den })
        } else {
            None
        }
    }

    /// The rational `n / 1`.
    pub fn from_int(n: i64) -> (r: Rat)
        ensures
            r == (Rat { num: n, den: 1 }),
    {
        Rat { num: n, den: 1 }
    }

    /// Zero.
    pub fn zero() -> (r: Rat)
        ensures
            r == (Rat { num: 0, den: 1 }),
    {
        Rat { num: 0, den: 1 }
    }

    pub fn num(&self) -> (r: i64)
        ensures
            r == self.num,
    {
        self.num
    }

    pub fn den(&self) -> (r: u64)
        ensures
            r == self.den,
    {
        self.den
    }

    /// Exact addition; `None` exactly when the result does not fit.
    pub fn add(&self, other: &Rat) -> (r: Option<Rat>)
        ensures
            r == rat_add(*self, *other),
    {
        proof {
            lemma_cross_mul_bounds(self.num as int, other.den as int);
            lemma_cross_mul_bounds(other.num as int, self.den as int);
            lemma_den_mul_bounds(self.den as int, other.den as int);
        }
        let p1: i128 = (self.num as i128) * (other.den as i128);
        let p2: i128 = (other.num as i128) * (self.den as i128);
        let n: i128 = match p1.checked_add(p2) {
            Some(n) => n,
            None => {
                return None;
            },
        };
        let d: u128 = (self.den as u128) * (other.den as u128);
        if n < i64::MIN as i128 || n > i64::MAX as i128 || d > u64::MAX as u128 {
            None
        } else {
            Some(Rat { num: n as i64, den: d as u64 })
        }
    }

    /// Exact division by a positive integer; `None` exactly when the result
    /// does not fit.
    pub fn div_int(&self, k: u64) -> (r: Option<Rat>)
        requires
            k >= 1,
        ensures
            r == rat_div(*self, k),
    {
        proof {
            lemma_den_mul_bounds(self.den as int, k as int);
        }
        let d: u128 = (self.den as u128) * (k as u128);
        if d > u64::MAX as u128 {
            None
        } else {
            Some(Rat { num: self.num, den: d as u64 })
        }
    }

    /// Value equality test.
    pub fn eq_value(&self, other: &Rat) -> (r: bool)
        ensures
            r == rat_eq(*self, *other),
    {
        proof {
            lemma_cross_mul_bounds(self.num as int, other.den as int);
            lemma_cross_mul_bounds(other.num as int, self.den as int);
        }
        (self.num as i128) * (other.den as i128) == (other.num as i128) * (self.den as i128)
    }

    /// Value order test.
    pub fn le_value(&self, other: &Rat) -> (r: bool)
        ensures
            r == rat_le(*self, *other),
    {
        proof {
            lemma_cross_mul_bounds(self.num as int, other.den as int);
            lemma_cross_mul_bounds(other.num as int, self.den as int);
        }
        (self.num as i128) * (other.den as i128) <= (other.num as i128) * (self.den as i128)
    }
}

/// The product of a numerator and a denominator fits in an `i128`.
proof fn lemma_cross_mul_bounds(a: int, b: int)
    requires
        i64::MIN <= a <= i64::MAX,
        0 <= b <= u64::MAX,
    ensures
        i128::MIN <= a * b <= i128::MAX,
{
    assert(i128::MIN <= a * b <= i128::MAX) by (nonlinear_arith)
        requires
            -0x8000_0000_0000_0000 <= a <= 0x7fff_ffff_ffff_ffff,
            0 <= b <= 0xffff_ffff_ffff_ffff,
    ;
}

/// The product of two denominators fits in a `u128`.
proof fn lemma_den_mul_bounds(a: int, b: int)
    requires
        0 <= a <= u64::MAX,
        0 <= b <= u64::MAX,
    ensures
        0 <= a * b <= u128::MAX,
{
    assert(0 <= a * b <= u128::MAX) by (nonlinear_arith)
        requires
            0 <= a <= 0xffff_ffff_ffff_ffff,
            0 <= b <= 0xffff_ffff_ffff_ffff,
    ;
}

/// `rat_le` is total on well-formed values.
pub proof fn lemma_rat_le_total(a: Rat, b: Rat)
    requires
        rat_wf(a),
        rat_wf(b),
    ensures
        rat_le(a, b) || rat_le(b, a),
{
}

/// `rat_le` is transitive on well-formed values.
pub proof fn lemma_rat_le_trans(a: Rat, b: Rat, c: Rat)
    requires
        rat_wf(a),
        rat_wf(b),
        rat_wf(c),
        rat_le(a, b),
        rat_le(b, c),
    ensures
        rat_le(a, c),
{
    assert(a.num * b.den * c.den <= b.num * a.den * c.den) by (nonlinear_arith)
        requires
            a.num * b.den <= b.num * a.den,
            c.den >= 1,
    ;
    assert(b.num * c.den * a.den <= c.num * b.den * a.den) by (nonlinear_arith)
        requires
            b.num * c.den <= c.num * b.den,
            a.den >= 1,
    ;
    assert(a.num * c.den * b.den <= c.num * a.den * b.den) by (nonlinear_arith)
        requires
            a.num * b.den * c.den <= b.num * a.den * c.den,
            b.num * c.den * a.den <= c.num * b.den * a.den,
    ;
    assert(a.num * c.den <= c.num * a.den) by (nonlinear_arith)
        requires
            a.num * c.den * b.den <= c.num * a.den * b.den,
            b.den >= 1,
    ;
}

/// A sum of well-formed rationals is well-formed.
pub proof fn lemma_rat_add_wf(a: Rat, b: Rat)
    requires
        rat_wf(a),
        rat_wf(b),
    ensures
        rat_add(a, b) matches Some(c) ==> rat_wf(c),
{
    assert(a.den * b.den >= 1) by (nonlinear_arith)
        requires
            a.den >= 1,
            b.den >= 1,
    ;
}

/// A quotient of a well-formed rational by a positive integer is well-formed.
pub proof fn lemma_rat_div_wf(a: Rat, k: u64)
    requires
        rat_wf(a),
        k >= 1,
    ensures
        rat_div(a, k) matches Some(c) ==> rat_wf(c),
{
    assert(a.den * k >= 1) by (nonlinear_arith)
        requires
            a.den >= 1,
            k >= 1,
    ;
}

/// Value equality is transitive on well-formed values.
pub proof fn lemma_rat_eq_trans(a: Rat, b: Rat, c: Rat)
    requires
        rat_wf(a),
        rat_wf(b),
        rat_wf(c),
        rat_eq(a, b),
        rat_eq(b, c),
    ensures
        rat_eq(a, c),
{
    assert(a.num * c.den * b.den == c.num * a.den * b.den) by (nonlinear_arith)
        requires
            a.num * b.den == b.num * a.den,
            b.num * c.den == c.num * b.den,
    ;
    assert(a.num * c.den == c.num * a.den) by (nonlinear_arith)
        requires
            a.num * c.den * b.den == c.num * a.den * b.den,
            b.den >= 1,
    ;
}

/// Mutual `rat_le` is exactly value equality on well-formed values.
pub proof fn lemma_rat_le_antisymm(a: Rat, b: Rat)
    requires
        rat_wf(a),
        rat_wf(b),
    ensures
        (rat_le(a, b) && rat_le(b, a)) <==> rat_eq(a, b),
{
}

} // verus!
