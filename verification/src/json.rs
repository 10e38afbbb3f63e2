use vstd::prelude::*;

verus! {

/// Bytes of the input left from position `i` on.
pub open spec fn rem(s: Seq<u8>, i: int) -> nat {
    if i <= s.len() {
        (s.len() - i) as nat
    } else {
        0
    }
}

/// `y`, but never below `x`: keeps a position from moving backwards.
pub open spec fn clamp_lo(x: int, y: int) -> int {
    if y < x {
        x
    } else {
        y
    }
}

/// `y`, but strictly above `x`: keeps a position advancing.
pub open spec fn bump(x: int, y: int) -> int {
    if y > x {
        y
    } else {
        x + 1
    }
}

/// JSON insignificant whitespace.
pub open spec fn is_ws(b: u8) -> bool {
    b == 0x20 || b == 0x09 || b == 0x0a || b == 0x0d
}

/// A decimal digit.
pub open spec fn is_digit(b: u8) -> bool {
    0x30 <= b <= 0x39
}

/// Value of a hexadecimal digit, or 16 for any other byte.
pub open spec fn hex_val(b: u8) -> u32 {
    if 0x30 <= b <= 0x39 {
        (b - 0x30) as u32
    } else if 0x41 <= b <= 0x46 {
        (b - 0x41 + 10) as u32
    } else if 0x61 <= b <= 0x66 {
        (b - 0x61 + 10) as u32
    } else {
        16
    }
}

/// The first position at or after `i` holding a non-whitespace byte (or the
/// end of the input).
pub open spec fn sp_ws(s: Seq<u8>, i: int) -> int
    decreases rem(s, i),
{
    if 0 <= i < s.len() && is_ws(s[i]) {
        sp_ws(s, i + 1)
    } else {
        i
    }
}

/// UTF-8 encoding of the scalar value `cp` (at most `0x10FFFF`).
pub open spec fn utf8_enc(cp: u32) -> Seq<u8> {
    if cp < 0x80 {
        seq![cp as u8]
    } else if cp < 0x800 {
        seq![(0xC0 + cp / 0x40) as u8, (0x80 + cp % 0x40) as u8]
    } else if cp < 0x10000 {
        seq![
            (0xE0 + cp / 0x1000) as u8,
            (0x80 + (cp / 0x40) % 0x40) as u8,
            (0x80 + cp % 0x40) as u8,
        ]
    } else {
        seq![
            (0xF0 + cp / 0x40000) as u8,
            (0x80 + (cp / 0x1000) % 0x40) as u8,
            (0x80 + (cp / 0x40) % 0x40) as u8,
            (0x80 + cp % 0x40) as u8,
        ]
    }
}

/// The scalar value of the four hexadecimal digits at `i`, or nothing.
pub open spec fn sp_hex4(s: Seq<u8>, i: int) -> Option<u32> {
    if 0 <= i && i + 4 <= s.len() && hex_val(s[i]) < 16 && hex_val(s[i + 1]) < 16 && hex_val(
        s[i + 2],
    ) < 16 && hex_val(s[i + 3]) < 16 {
        Some(
            (hex_val(s[i]) * 0x1000 + hex_val(s[i + 1]) * 0x100 + hex_val(s[i + 2]) * 0x10
                + hex_val(s[i + 3])) as u32,
        )
    } else {
        None
    }
}

/// The decoded content of a string body starting at `i` (just after the
/// opening quote): the UTF-8 bytes it denotes and the position just after
/// the closing quote. Escapes are decoded; an unterminated string, an
/// unknown escape, an unescaped control byte, or a lone surrogate is a
/// failure.
pub open spec fn sp_str_body(s: Seq<u8>, i: int) -> Option<(Seq<u8>, int)>
    decreases rem(s, i), 1int,
{
    if !(0 <= i < s.len()) {
        None
    } else {
        let b = s[i];
        if b == 0x22 {  // closing quote
            Some((Seq::empty(), i + 1))
        } else if b == 0x5c {  // backslash
            sp_escape(s, i)
        } else if b < 0x20 {
            None
        } else {
            match sp_str_body(s, i + 1) {
                Some((rest, j)) => Some((seq![b] + rest, j)),
                None => None,
            }
        }
    }
}

/// The decoded bytes of the escape starting at `i` (at the backslash),
/// followed by the rest of the string body.
pub open spec fn sp_escape(s: Seq<u8>, i: int) -> Option<(Seq<u8>, int)>
    decreases rem(s, i), 0int,
{
    if !(0 <= i && i + 2 <= s.len()) {
        None
    } else {
        let e = s[i + 1];
        if e == 0x22 || e == 0x5c || e == 0x2f {
            match sp_str_body(s, i + 2) {
                Some((rest, j)) => Some((seq![e] + rest, j)),
                None => None,
            }
        } else if e == 0x62 || e == 0x66 || e == 0x6e || e == 0x72 || e == 0x74 {
            let c: u8 = if e == 0x62 {
                0x08
            } else if e == 0x66 {
                0x0c
            } else if e == 0x6e {
                0x0a
            } else if e == 0x72 {
                0x0d
            } else {
                0x09
            };
            match sp_str_body(s, i + 2) {
                Some((rest, j)) => Some((seq![c] + rest, j)),
                None => None,
            }
        } else if e == 0x75 {
            match sp_hex4(s, i + 2) {
                Some(cp) => {
                    if 0xD800 <= cp <= 0xDBFF {
                        // leading surrogate: a trailing one must follow
                        if i + 12 <= s.len() && s[i + 6] == 0x5c && s[i + 7] == 0x75 {
                            match sp_hex4(s, i + 8) {
                                Some(cp2) => {
                                    if 0xDC00 <= cp2 <= 0xDFFF {
                                        let full = (0x10000 + (cp - 0xD800) * 0x400 + (cp2
                                            - 0xDC00)) as u32;
                                        match sp_str_body(s, i + 12) {
                                            Some((rest, j)) => Some((utf8_enc(full) + rest, j)),
                                            None => None,
                                        }
                                    } else {
                                        None
                                    }
                                },
                                None => None,
                            }
                        } else {
                            None
                        }
                    } else if 0xDC00 <= cp <= 0xDFFF {
                        None
                    } else {
                        match sp_str_body(s, i + 6) {
                            Some((rest, j)) => Some((utf8_enc(cp) + rest, j)),
                            None => None,
                        }
                    }
                },
                None => None,
            }
        } else {
            None
        }
    }
}

/// A whole string at `i` (at the opening quote): its decoded bytes and the
/// position just after the closing quote.
pub open spec fn sp_string(s: Seq<u8>, i: int) -> Option<(Seq<u8>, int)> {
    if 0 <= i < s.len() && s[i] == 0x22 {
        sp_str_body(s, i + 1)
    } else {
        None
    }
}

/// Positions a string parse can end at stay within the input.
pub proof fn lemma_sp_str_body_bounds(s: Seq<u8>, i: int)
    ensures
        sp_str_body(s, i) matches Some((b, j)) ==> i < j <= s.len(),
        sp_escape(s, i) matches Some((b, j)) ==> i < j <= s.len(),
    decreases rem(s, i), 2int,
{
    if 0 <= i < s.len() {
        lemma_sp_str_body_bounds(s, i + 1);
        lemma_sp_str_body_bounds(s, i + 2);
        lemma_sp_str_body_bounds(s, i + 6);
        lemma_sp_str_body_bounds(s, i + 12);
    }
}

} // verus!

verus! {

use crate::rat::Rat;

/// The end of the run of decimal digits starting at `i`.
pub open spec fn sp_digits_end(s: Seq<u8>, i: int) -> int
    decreases rem(s, i),
{
    if 0 <= i < s.len() && is_digit(s[i]) {
        sp_digits_end(s, i + 1)
    } else {
        i
    }
}

/// The value of the decimal digits `s[i..j)`.
pub open spec fn digits_val(s: Seq<u8>, i: int, j: int) -> int
    decreases (if j >= i { j - i } else { 0 }),
{
    if j <= i || j > s.len() {
        0
    } else {
        digits_val(s, i, j - 1) * 10 + (s[j - 1] - 0x30)
    }
}

/// The integer `10^k`.
pub open spec fn pow10(k: nat) -> int
    decreases k,
{
    if k == 0 {
        1
    } else {
        10 * pow10((k - 1) as nat)
    }
}

/// The exact rational a parsed number denotes — sign, integer-and-fraction
/// digits value `m`, fraction length `f`, exponent `e` — paired with the end
/// position; `None` when a field of the exact value does not fit its
/// machine type ("number out of range").
pub open spec fn mk_rat(neg: bool, m: int, f: nat, e: int, end: int) -> Option<(Rat, int)> {
    let num0 = if e >= f {
        m * pow10((e - f) as nat)
    } else {
        m
    };
    let den = if e >= f {
        1
    } else {
        pow10((f - e) as nat)
    };
    let num = if neg {
        -num0
    } else {
        num0
    };
    if i64::MIN <= num <= i64::MAX && den <= u64::MAX {
        Some((Rat { num: num as i64, den: den as u64 }, end))
    } else {
        None
    }
}

/// The optional exponent part at `i` and the number it completes.
pub open spec fn sp_number_exp(s: Seq<u8>, i: int, neg: bool, m: int, f: nat) -> Option<
    (Rat, int),
> {
    if 0 <= i < s.len() && (s[i] == 0x65 || s[i] == 0x45) {
        let eneg = i + 1 < s.len() && s[i + 1] == 0x2d;
        let i1 = if i + 1 < s.len() && (s[i + 1] == 0x2b || s[i + 1] == 0x2d) {
            i + 2
        } else {
            i + 1
        };
        if !(i1 < s.len() && is_digit(s[i1])) {
            None
        } else {
            let i2 = sp_digits_end(s, i1);
            let ev = digits_val(s, i1, i2);
            mk_rat(neg, m, f, if eneg { -ev } else { ev }, i2)
        }
    } else {
        mk_rat(neg, m, f, 0, i)
    }
}

/// A JSON number at `i`: its exact rational value and its end position.
/// The grammar is strict (no leading `+`, no superfluous leading zero, a
/// digit required on both sides of `.` and after `e`); a number whose exact
/// value does not fit the rational's machine types is a failure.
pub open spec fn sp_number(s: Seq<u8>, i: int) -> Option<(Rat, int)> {
    let neg = 0 <= i < s.len() && s[i] == 0x2d;
    let i1 = if neg {
        i + 1
    } else {
        i
    };
    if !(0 <= i1 < s.len() && is_digit(s[i1])) {
        None
    } else {
        let i2 = sp_digits_end(s, i1);
        if s[i1] == 0x30 && i2 > i1 + 1 {
            None
        } else {
            let m1 = digits_val(s, i1, i2);
            if i2 < s.len() && s[i2] == 0x2e {
                if !(i2 + 1 < s.len() && is_digit(s[i2 + 1])) {
                    None
                } else {
                    let i3 = sp_digits_end(s, i2 + 1);
                    let f = (i3 - i2 - 1) as nat;
                    let m = m1 * pow10(f) + digits_val(s, i2 + 1, i3);
                    sp_number_exp(s, i3, neg, m, f)
                }
            } else {
                sp_number_exp(s, i2, neg, m1, 0)
            }
        }
    }
}

/// `10^k` is positive and grows with `k`.
pub proof fn lemma_pow10_mono(j: nat, k: nat)
    requires
        j <= k,
    ensures
        1 <= pow10(j) <= pow10(k),
    decreases k,
{
    if k > 0 {
        if j == k {
            lemma_pow10_mono(0, (k - 1) as nat);
        } else {
            lemma_pow10_mono(j, (k - 1) as nat);
        }
    }
}

/// `10^19` and `10^20`, written out.
pub proof fn lemma_pow10_values()
    ensures
        pow10(19) == 0x8AC7_2304_89E8_0000,
        pow10(20) == 0x5_6BC7_5E2D_6310_0000,
{
    reveal_with_fuel(pow10, 21);
}

/// Digit runs denote non-negative values that grow with the run.
pub proof fn lemma_digits_val_mono(s: Seq<u8>, i: int, j: int, k: int)
    requires
        0 <= i <= j <= k <= s.len(),
        forall|t: int| i <= t < k ==> is_digit(#[trigger] s[t]),
    ensures
        0 <= digits_val(s, i, j) <= digits_val(s, i, k),
    decreases k - i,
{
    if k > j {
        lemma_digits_val_mono(s, i, j, k - 1);
        assert(digits_val(s, i, k - 1) * 10 >= digits_val(s, i, k - 1)) by (nonlinear_arith)
            requires
                digits_val(s, i, k - 1) >= 0,
        ;
    } else if j > i {
        lemma_digits_val_mono(s, i, j - 1, j - 1);
        assert(digits_val(s, i, j - 1) * 10 >= 0) by (nonlinear_arith)
            requires
                digits_val(s, i, j - 1) >= 0,
        ;
    }
}

/// The digit-run end stays within `[i, s.len()]` (for `i` in range), and the
/// run it delimits is all digits.
pub proof fn lemma_sp_digits_end_bounds(s: Seq<u8>, i: int)
    requires
        0 <= i <= s.len(),
    ensures
        i <= sp_digits_end(s, i) <= s.len(),
        forall|t: int| i <= t < sp_digits_end(s, i) ==> is_digit(#[trigger] s[t]),
    decreases rem(s, i),
{
    if i < s.len() && is_digit(s[i]) {
        lemma_sp_digits_end_bounds(s, i + 1);
    }
}

} // verus!

verus! {

/// Exec mirror of `hex_val`.
fn hv(b: u8) -> (r: u32)
    ensures
        r == hex_val(b),
{
    if 0x30 <= b && b <= 0x39 {
        (b - 0x30) as u32
    } else if 0x41 <= b && b <= 0x46 {
        (b - 0x41 + 10) as u32
    } else if 0x61 <= b && b <= 0x66 {
        (b - 0x61 + 10) as u32
    } else {
        16
    }
}

/// Exec mirror of `sp_hex4`.
fn p_hex4(s: &Vec<u8>, i: usize) -> (r: Option<u32>)
    requires
        i <= s.len(),
    ensures
        r == sp_hex4(s@, i as int),
{
    if s.len() - i < 4 {
        return None;
    }
    let h0 = hv(s[i]);
    let h1 = hv(s[i + 1]);
    let h2 = hv(s[i + 2]);
    let h3 = hv(s[i + 3]);
    if h0 < 16 && h1 < 16 && h2 < 16 && h3 < 16 {
        Some(h0 * 0x1000 + h1 * 0x100 + h2 * 0x10 + h3)
    } else {
        None
    }
}

/// Exec mirror of `utf8_enc`.
fn enc_utf8(cp: u32) -> (r: Vec<u8>)
    requires
        cp <= 0x10FFFF,
    ensures
        r@ == utf8_enc(cp),
{
    let mut out: Vec<u8> = Vec::new();
    if cp < 0x80 {
        out.push(cp as u8);
        proof {
            assert(out@ =~= utf8_enc(cp));
        }
    } else if cp < 0x800 {
        out.push((0xC0 + cp / 0x40) as u8);
        out.push((0x80 + cp % 0x40) as u8);
        proof {
            assert(out@ =~= utf8_enc(cp));
        }
    } else if cp < 0x10000 {
        out.push((0xE0 + cp / 0x1000) as u8);
        out.push((0x80 + (cp / 0x40) % 0x40) as u8);
        out.push((0x80 + cp % 0x40) as u8);
        proof {
            assert(out@ =~= utf8_enc(cp));
        }
    } else {
        out.push((0xF0 + cp / 0x40000) as u8);
        out.push((0x80 + (cp / 0x1000) % 0x40) as u8);
        out.push((0x80 + (cp / 0x40) % 0x40) as u8);
        out.push((0x80 + cp % 0x40) as u8);
        proof {
            assert(out@ =~= utf8_enc(cp));
        }
    }
    out
}

/// Exec mirror of `sp_str_body`.
fn p_str_body(s: &Vec<u8>, i: usize) -> (r: Option<(Vec<u8>, usize)>)
    requires
        i <= s.len(),
    ensures
        match r {
            Some(p) => sp_str_body(s@, i as int) == Some((p.0@, p.1 as int)) && i < p.1 <= s.len(),
            None => sp_str_body(s@, i as int) is None,
        },
    decreases rem(s@, i as int), 1int,
{
    proof {
        lemma_sp_str_body_bounds(s@, i as int);
    }
    if i >= s.len() {
        return None;
    }
    let b = s[i];
    if b == 0x22 {
        let out: Vec<u8> = Vec::new();
        proof {
            assert(out@ =~= Seq::<u8>::empty());
        }
        Some((out, i + 1))
    } else if b == 0x5c {
        p_escape(s, i)
    } else if b < 0x20 {
        None
    } else {
        match p_str_body(s, i + 1) {
            Some((mut rest, j)) => {
                let ghost rest_snap = rest@;
                let mut out: Vec<u8> = Vec::new();
                out.push(b);
                out.append(&mut rest);
                proof {
                    assert(out@ =~= seq![b] + rest_snap);
                }
                Some((out, j))
            },
            None => None,
        }
    }
}

/// Exec mirror of `sp_escape`.
fn p_escape(s: &Vec<u8>, i: usize) -> (r: Option<(Vec<u8>, usize)>)
    requires
        i < s.len(),
        s@[i as int] == 0x5c,
    ensures
        match r {
            Some(p) => sp_escape(s@, i as int) == Some((p.0@, p.1 as int)) && i < p.1 <= s.len(),
            None => sp_escape(s@, i as int) is None,
        },
    decreases rem(s@, i as int), 0int,
{
    proof {
        lemma_sp_str_body_bounds(s@, i as int);
    }
    if s.len() - i < 2 {
        return None;
    }
    let e = s[i + 1];
    if e == 0x22 || e == 0x5c || e == 0x2f || e == 0x62 || e == 0x66 || e == 0x6e || e == 0x72
        || e == 0x74 {
        let c: u8 = if e == 0x62 {
            0x08
        } else if e == 0x66 {
            0x0c
        } else if e == 0x6e {
            0x0a
        } else if e == 0x72 {
            0x0d
        } else if e == 0x74 {
            0x09
        } else {
            e
        };
        match p_str_body(s, i + 2) {
            Some((mut rest, j)) => {
                let ghost rest_snap = rest@;
                let mut out: Vec<u8> = Vec::new();
                out.push(c);
                out.append(&mut rest);
                proof {
                    assert(out@ =~= seq![c] + rest_snap);
                }
                Some((out, j))
            },
            None => None,
        }
    } else if e == 0x75 {
        let cp = match p_hex4(s, i + 2) {
            Some(cp) => cp,
            None => {
                return None;
            },
        };
        if 0xD800 <= cp && cp <= 0xDBFF {
            if s.len() - i >= 12 && s[i + 6] == 0x5c && s[i + 7] == 0x75 {
                let cp2 = match p_hex4(s, i + 8) {
                    Some(cp2) => cp2,
                    None => {
                        return None;
                    },
                };
                if 0xDC00 <= cp2 && cp2 <= 0xDFFF {
                    let full: u32 = 0x10000 + (cp - 0xD800) * 0x400 + (cp2 - 0xDC00);
                    match p_str_body(s, i + 12) {
                        Some((mut rest, j)) => {
                            let ghost rest_snap = rest@;
                            let mut out = enc_utf8(full);
                            out.append(&mut rest);
                            proof {
                                assert(out@ =~= utf8_enc(full) + rest_snap);
                            }
                            Some((out, j))
                        },
                        None => None,
                    }
                } else {
                    None
                }
            } else {
                None
            }
        } else if 0xDC00 <= cp && cp <= 0xDFFF {
            None
        } else {
            match p_str_body(s, i + 6) {
                Some((mut rest, j)) => {
                    let ghost rest_snap = rest@;
                    let mut out = enc_utf8(cp);
                    out.append(&mut rest);
                    proof {
                        assert(out@ =~= utf8_enc(cp) + rest_snap);
                    }
                    Some((out, j))
                },
                None => None,
            }
        }
    } else {
        None
    }
}

/// Exec mirror of `sp_string`.
fn p_string(s: &Vec<u8>, i: usize) -> (r: Option<(Vec<u8>, usize)>)
    requires
        i <= s.len(),
    ensures
        match r {
            Some(p) => sp_string(s@, i as int) == Some((p.0@, p.1 as int)) && i < p.1 <= s.len(),
            None => sp_string(s@, i as int) is None,
        },
{
    if i < s.len() && s[i] == 0x22 {
        p_str_body(s, i + 1)
    } else {
        None
    }
}

} // verus!

verus! {

/// Exec mirror of `sp_ws`.
#[verifier::loop_isolation(false)]
fn p_ws(s: &Vec<u8>, i: usize) -> (j: usize)
    requires
        i <= s.len(),
    ensures
        j as int == sp_ws(s@, i as int),
        i <= j <= s.len(),
{
    let mut j = i;
    while j < s.len() && (s[j] == 0x20 || s[j] == 0x09 || s[j] == 0x0a || s[j] == 0x0d)
        invariant
            i <= j <= s.len(),
            sp_ws(s@, i as int) == sp_ws(s@, j as int),
        decreases s.len() - j,
    {
        j = j + 1;
    }
    j
}

/// Exec mirror of `sp_digits_end`.
#[verifier::loop_isolation(false)]
fn p_digits_end(s: &Vec<u8>, i: usize) -> (j: usize)
    requires
        i <= s.len(),
    ensures
        j as int == sp_digits_end(s@, i as int),
        i <= j <= s.len(),
{
    let mut j = i;
    while j < s.len() && 0x30 <= s[j] && s[j] <= 0x39
        invariant
            i <= j <= s.len(),
            sp_digits_end(s@, i as int) == sp_digits_end(s@, j as int),
        decreases s.len() - j,
    {
        j = j + 1;
    }
    j
}

/// Exec value of the digit run `s[i..j)`; `None` exactly when it exceeds
/// `u64::MAX`.
#[verifier::loop_isolation(false)]
fn p_digits_val(s: &Vec<u8>, i: usize, j: usize) -> (r: Option<u64>)
    requires
        i <= j <= s.len(),
        forall|t: int| i <= t < j ==> is_digit(#[trigger] s@[t]),
    ensures
        match r {
            Some(v) => v as int == digits_val(s@, i as int, j as int),
            None => digits_val(s@, i as int, j as int) > u64::MAX,
        },
{
    let mut acc: u64 = 0;
    let mut k = i;
    while k < j
        invariant
            i <= k <= j,
            acc as int == digits_val(s@, i as int, k as int),
        decreases j - k,
    {
        let d = (s[k] - 0x30) as u64;
        let acc10 = match acc.checked_mul(10) {
            Some(a) => a,
            None => {
                proof {
                    lemma_digits_val_mono(s@, i as int, k as int + 1, j as int);
                    assert(digits_val(s@, i as int, k as int + 1) > u64::MAX);
                }
                return None;
            },
        };
        acc = match acc10.checked_add(d) {
            Some(a) => a,
            None => {
                proof {
                    lemma_digits_val_mono(s@, i as int, k as int + 1, j as int);
                    assert(digits_val(s@, i as int, k as int + 1) > u64::MAX);
                }
                return None;
            },
        };
        k = k + 1;
    }
    Some(acc)
}

/// Exec value of the digit run `s[i..j)` in 128 bits; `None` exactly when it
/// exceeds `u128::MAX`.
#[verifier::loop_isolation(false)]
fn p_digits_val_wide(s: &Vec<u8>, i: usize, j: usize) -> (r: Option<u128>)
    requires
        i <= j <= s.len(),
        forall|t: int| i <= t < j ==> is_digit(#[trigger] s@[t]),
    ensures
        match r {
            Some(v) => v as int == digits_val(s@, i as int, j as int),
            None => digits_val(s@, i as int, j as int) > u128::MAX,
        },
{
    let mut acc: u128 = 0;
    let mut k = i;
    while k < j
        invariant
            i <= k <= j,
            acc as int == digits_val(s@, i as int, k as int),
        decreases j - k,
    {
        let d = (s[k] - 0x30) as u128;
        let acc10 = match acc.checked_mul(10) {
            Some(a) => a,
            None => {
                proof {
                    lemma_digits_val_mono(s@, i as int, k as int + 1, j as int);
                }
                return None;
            },
        };
        acc = match acc10.checked_add(d) {
            Some(a) => a,
            None => {
                proof {
                    lemma_digits_val_mono(s@, i as int, k as int + 1, j as int);
                }
                return None;
            },
        };
        k = k + 1;
    }
    Some(acc)
}

/// Exec mirror of `pow10` for exponents that fit a `u64` result.
#[verifier::loop_isolation(false)]
fn p_pow10(k: u64) -> (r: u64)
    requires
        k <= 19,
    ensures
        r as int == pow10(k as nat),
{
    proof {
        lemma_pow10_values();
    }
    let mut acc: u64 = 1;
    let mut j: u64 = 0;
    while j < k
        invariant
            j <= k,
            acc as int == pow10(j as nat),
        decreases k - j,
    {
        proof {
            lemma_pow10_mono(j as nat + 1, 19);
        }
        acc = acc * 10;
        j = j + 1;
    }
    acc
}

/// A product is at least each factor (for factors at least one).
proof fn lemma_mul_ge(a: int, b: int)
    requires
        a >= 0,
        b >= 1,
    ensures
        a * b >= a,
        a >= 1 ==> a * b >= b,
{
    assert(a * b >= a && (a >= 1 ==> a * b >= b)) by (nonlinear_arith)
        requires
            a >= 0,
            b >= 1,
    ;
}

/// A product of two values below `u64::MAX` fits a `u128`.
proof fn lemma_mul_u64_fits(a: int, b: int)
    requires
        0 <= a <= u64::MAX,
        0 <= b <= u64::MAX,
    ensures
        0 <= a * b <= u128::MAX,
{
    assert(0 <= a * b <= u128::MAX) by (nonlinear_arith)
        requires
            0 <= a <= 0xffff_ffff_ffff_ffff,
            0 <= b <= 0xffff_ffff_ffff_ffff,
    ;
}

/// Builds the rational of `mk_rat` from machine values: the sign, the
/// mantissa (`None` when its exact value exceeds `u64::MAX`, with that exact
/// value as `m_exact`), the fraction length and the signed exponent.
fn p_mk_rat(
    neg: bool,
    m_opt: Option<u64>,
    Ghost(m_exact): Ghost<int>,
    f: usize,
    eneg: bool,
    ev_opt: Option<u128>,
    Ghost(ev_exact): Ghost<int>,
    end: usize,
) -> (r: Option<(Rat, usize)>)
    requires
        match m_opt {
            Some(m) => m as int == m_exact,
            None => m_exact > u64::MAX,
        },
        match ev_opt {
            Some(ev) => ev as int == ev_exact,
            None => ev_exact > u128::MAX,
        },
        m_exact >= 0,
        ev_exact >= 0,
    ensures
        match r {
            Some(p) => mk_rat(
                neg,
                m_exact,
                f as nat,
                if eneg {
                    -ev_exact
                } else {
                    ev_exact
                },
                end as int,
            ) == Some((p.0, p.1 as int)) && p.1 == end,
            None => mk_rat(
                neg,
                m_exact,
                f as nat,
                if eneg {
                    -ev_exact
                } else {
                    ev_exact
                },
                end as int,
            ) is None,
        },
{
    let ghost e: int = if eneg {
        -ev_exact
    } else {
        ev_exact
    };
    proof {
        lemma_pow10_values();
    }
    let e_ge_f: bool = if eneg {
        f == 0 && (ev_opt matches Some(v) && v == 0)
    } else {
        match ev_opt {
            Some(v) => v >= f as u128,
            None => true,
        }
    };
    proof {
        assert(e_ge_f == (e >= f));
    }
    if e_ge_f {
        // the value is (sign) m * 10^(e - f)
        let k_small: Option<u64> = match ev_opt {
            Some(ev) => {
                let d: u128 = if eneg {
                    0
                } else {
                    ev - f as u128
                };
                if d <= 19 {
                    Some(d as u64)
                } else {
                    None
                }
            },
            None => None,
        };
        let ghost k: nat = (e - f) as nat;
        match k_small {
            Some(kk) => {
                proof {
                    lemma_pow10_mono(0, k);
                }
                let p = p_pow10(kk);
                match m_opt {
                    Some(m) => {
                        proof {
                            lemma_mul_u64_fits(m as int, p as int);
                        }
                        let num0: u128 = (m as u128) * (p as u128);
                        if neg {
                            if num0 > 0x8000_0000_0000_0000u128 {
                                return None;
                            }
                            Some((Rat { num: (-(num0 as i128)) as i64, den: 1 }, end))
                        } else {
                            if num0 > 0x7fff_ffff_ffff_ffffu128 {
                                return None;
                            }
                            Some((Rat { num: num0 as i64, den: 1 }, end))
                        }
                    },
                    None => {
                        // the mantissa alone exceeds i64::MAX
                        proof {
                            lemma_pow10_mono(0, k);
                            lemma_mul_ge(m_exact, pow10(k));
                        }
                        None
                    },
                }
            },
            None => {
                // e - f >= 20: only a zero mantissa still fits
                proof {
                    assert(k >= 20);
                    lemma_pow10_mono(20, k);
                    if m_exact >= 1 {
                        lemma_mul_ge(m_exact, pow10(k));
                    } else {
                        assert(m_exact * pow10(k) == 0) by (nonlinear_arith)
                            requires
                                m_exact == 0,
                        ;
                    }
                }
                if m_opt matches Some(m0) && m0 == 0 {
                    Some((Rat { num: 0, den: 1 }, end))
                } else {
                    None
                }
            },
        }
    } else {
        // the value is (sign) m / 10^(f - e), with f - e >= 1
        let k_small: Option<u64> = if eneg {
            match ev_opt {
                Some(ev) => match (f as u128).checked_add(ev) {
                    Some(d) => if d <= 19 {
                        Some(d as u64)
                    } else {
                        None
                    },
                    None => None,
                },
                None => None,
            }
        } else {
            let d: u128 = f as u128 - ev_opt.unwrap();
            if d <= 19 {
                Some(d as u64)
            } else {
                None
            }
        };
        let ghost k: nat = (f - e) as nat;
        match k_small {
            Some(kk) => {
                let den = p_pow10(kk);
                match m_opt {
                    Some(m) => {
                        if neg {
                            if m > 0x8000_0000_0000_0000u64 {
                                return None;
                            }
                            Some((Rat { num: (-(m as i128)) as i64, den }, end))
                        } else {
                            if m > 0x7fff_ffff_ffff_ffffu64 {
                                return None;
                            }
                            Some((Rat { num: m as i64, den }, end))
                        }
                    },
                    None => None,
                }
            },
            None => {
                // f - e >= 20: the denominator exceeds u64::MAX
                proof {
                    assert(k >= 20);
                    lemma_pow10_mono(20, k);
                }
                None
            },
        }
    }
}

} // verus!

verus! {

/// The combined mantissa `m1 * 10^f + fv` as a machine value; `None` exactly
/// when it exceeds `u64::MAX`.
fn combine_mantissa(
    m1_opt: Option<u64>,
    f: usize,
    fv_opt: Option<u64>,
    Ghost(m1): Ghost<int>,
    Ghost(fv): Ghost<int>,
) -> (r: Option<u64>)
    requires
        match m1_opt {
            Some(v) => v as int == m1,
            None => m1 > u64::MAX,
        },
        match fv_opt {
            Some(v) => v as int == fv,
            None => fv > u64::MAX,
        },
        m1 >= 0,
        fv >= 0,
    ensures
        match r {
            Some(v) => v as int == m1 * pow10(f as nat) + fv,
            None => m1 * pow10(f as nat) + fv > u64::MAX,
        },
{
    proof {
        lemma_pow10_values();
        lemma_pow10_mono(0, f as nat);
    }
    match (m1_opt, fv_opt) {
        (Some(m1v), Some(fvv)) => {
            if m1v == 0 {
                proof {
                    assert(m1 * pow10(f as nat) == 0) by (nonlinear_arith)
                        requires
                            m1 == 0,
                    ;
                }
                Some(fvv)
            } else if f > 19 {
                proof {
                    lemma_pow10_mono(20, f as nat);
                    lemma_mul_ge(m1, pow10(f as nat));
                }
                None
            } else {
                let p = p_pow10(f as u64);
                match m1v.checked_mul(p) {
                    Some(mp) => match mp.checked_add(fvv) {
                        Some(v) => Some(v),
                        None => None,
                    },
                    None => None,
                }
            }
        },
        (None, _) => {
            proof {
                lemma_mul_ge(m1, pow10(f as nat));
            }
            None
        },
        (Some(_), None) => {
            proof {
                assert(m1 * pow10(f as nat) >= 0) by (nonlinear_arith)
                    requires
                        m1 >= 0,
                        pow10(f as nat) >= 1,
                ;
            }
            None
        },
    }
}

/// Exec mirror of `sp_number_exp`.
fn p_number_exp(
    s: &Vec<u8>,
    i: usize,
    neg: bool,
    m_opt: Option<u64>,
    Ghost(m): Ghost<int>,
    f: usize,
) -> (r: Option<(Rat, usize)>)
    requires
        i <= s.len(),
        match m_opt {
            Some(v) => v as int == m,
            None => m > u64::MAX,
        },
        m >= 0,
    ensures
        match r {
            Some(p) => sp_number_exp(s@, i as int, neg, m, f as nat) == Some((p.0, p.1 as int))
                && i <= p.1 <= s.len(),
            None => sp_number_exp(s@, i as int, neg, m, f as nat) is None,
        },
{
    if i < s.len() && (s[i] == 0x65 || s[i] == 0x45) {
        let eneg = i + 1 < s.len() && s[i + 1] == 0x2d;
        let i1 = if i + 1 < s.len() && (s[i + 1] == 0x2b || s[i + 1] == 0x2d) {
            i + 2
        } else {
            i + 1
        };
        if !(i1 < s.len() && 0x30 <= s[i1] && s[i1] <= 0x39) {
            return None;
        }
        let i2 = p_digits_end(s, i1);
        proof {
            lemma_sp_digits_end_bounds(s@, i1 as int);
        }
        let ev_opt = p_digits_val_wide(s, i1, i2);
        let ghost ev = digits_val(s@, i1 as int, i2 as int);
        proof {
            lemma_digits_val_mono(s@, i1 as int, i2 as int, i2 as int);
        }
        p_mk_rat(neg, m_opt, Ghost(m), f, eneg, ev_opt, Ghost(ev), i2)
    } else {
        p_mk_rat(neg, m_opt, Ghost(m), f, false, Some(0u128), Ghost(0int), i)
    }
}

/// Exec mirror of `sp_number`.
fn p_number(s: &Vec<u8>, i: usize) -> (r: Option<(Rat, usize)>)
    requires
        i <= s.len(),
    ensures
        match r {
            Some(p) => sp_number(s@, i as int) == Some((p.0, p.1 as int)) && i < p.1 <= s.len(),
            None => sp_number(s@, i as int) is None,
        },
{
    let neg = i < s.len() && s[i] == 0x2d;
    let i1 = if neg {
        i + 1
    } else {
        i
    };
    if !(i1 < s.len() && 0x30 <= s[i1] && s[i1] <= 0x39) {
        return None;
    }
    let i2 = p_digits_end(s, i1);
    proof {
        lemma_sp_digits_end_bounds(s@, i1 as int);
        lemma_sp_digits_end_bounds(s@, i1 as int + 1);
        assert(i2 as int >= i1 as int + 1);
    }
    if s[i1] == 0x30 && i2 > i1 + 1 {
        return None;
    }
    let m1_opt = p_digits_val(s, i1, i2);
    let ghost m1 = digits_val(s@, i1 as int, i2 as int);
    proof {
        lemma_digits_val_mono(s@, i1 as int, i2 as int, i2 as int);
    }
    if i2 < s.len() && s[i2] == 0x2e {
        if !(i2 + 1 < s.len() && 0x30 <= s[i2 + 1] && s[i2 + 1] <= 0x39) {
            return None;
        }
        let i3 = p_digits_end(s, i2 + 1);
        proof {
            lemma_sp_digits_end_bounds(s@, i2 as int + 1);
            lemma_sp_digits_end_bounds(s@, i2 as int + 2);
            assert(i3 as int >= i2 as int + 2);
        }
        let f = i3 - (i2 + 1);
        let fv_opt = p_digits_val(s, i2 + 1, i3);
        let ghost fv = digits_val(s@, i2 as int + 1, i3 as int);
        proof {
            lemma_digits_val_mono(s@, i2 as int + 1, i3 as int, i3 as int);
        }
        let m_opt = combine_mantissa(m1_opt, f, fv_opt, Ghost(m1), Ghost(fv));
        let ghost m = m1 * pow10(f as nat) + fv;
        proof {
            lemma_pow10_mono(0, f as nat);
            assert(m1 * pow10(f as nat) >= 0) by (nonlinear_arith)
                requires
                    m1 >= 0,
                    pow10(f as nat) >= 1,
            ;
        }
        p_number_exp(s, i3, neg, m_opt, Ghost(m), f)
    } else {
        p_number_exp(s, i2, neg, m1_opt, Ghost(m1), 0)
    }
}

} // verus!

verus! {

use crate::tree::TreeV;

/// End of any well-formed JSON value at `i`, used to pass over object
/// members the tree shape does not know. (Numbers must still be
/// representable: see `sp_number`.)
pub open spec fn sp_skip(s: Seq<u8>, i: int) -> Option<int>
    decreases rem(s, i), 0int,
{
    if !(0 <= i < s.len()) {
        None
    } else {
        let b = s[i];
        if b == 0x6e {  // null
            if i + 4 <= s.len() && s[i + 1] == 0x75 && s[i + 2] == 0x6c && s[i + 3] == 0x6c {
                Some(i + 4)
            } else {
                None
            }
        } else if b == 0x74 {  // true
            if i + 4 <= s.len() && s[i + 1] == 0x72 && s[i + 2] == 0x75 && s[i + 3] == 0x65 {
                Some(i + 4)
            } else {
                None
            }
        } else if b == 0x66 {  // false
            if i + 5 <= s.len() && s[i + 1] == 0x61 && s[i + 2] == 0x6c && s[i + 3] == 0x73 && s[i
                + 4] == 0x65 {
                Some(i + 5)
            } else {
                None
            }
        } else if b == 0x22 {
            match sp_str_body(s, i + 1) {
                Some((_b, j)) => Some(j),
                None => None,
            }
        } else if b == 0x5b {  // [
            sp_skip_arr(s, i + 1, true)
        } else if b == 0x7b {  // {
            sp_skip_obj(s, i + 1, true)
        } else {
            match sp_number(s, i) {
                Some((_r, j)) => Some(j),
                None => None,
            }
        }
    }
}

/// End of the remainder of a JSON array being skipped: elements and commas
/// up to the closing bracket (`first` allows an immediately empty array).
pub open spec fn sp_skip_arr(s: Seq<u8>, i: int, first: bool) -> Option<int>
    decreases rem(s, i), 1int,
{
    if i < 0 {
        None
    } else {
        let j = clamp_lo(i, sp_ws(s, i));
        if !(j < s.len()) {
            None
        } else if s[j] == 0x5d && first {
            Some(j + 1)
        } else {
            match sp_skip(s, j) {
                Some(j2raw) => {
                    let j2 = bump(j, j2raw);
                    let j3 = clamp_lo(j2, sp_ws(s, j2));
                    if !(j3 < s.len()) {
                        None
                    } else if s[j3] == 0x2c {
                        sp_skip_arr(s, bump(i, j3 + 1), false)
                    } else if s[j3] == 0x5d {
                        Some(j3 + 1)
                    } else {
                        None
                    }
                },
                None => None,
            }
        }
    }
}

/// End of the remainder of a JSON object being skipped.
pub open spec fn sp_skip_obj(s: Seq<u8>, i: int, first: bool) -> Option<int>
    decreases rem(s, i), 1int,
{
    if i < 0 {
        None
    } else {
        let j = clamp_lo(i, sp_ws(s, i));
        if !(j < s.len()) {
            None
        } else if s[j] == 0x7d && first {
            Some(j + 1)
        } else {
            match sp_string(s, j) {
                Some((_key, j2raw)) => {
                    let j2 = bump(j, j2raw);
                    let j3 = clamp_lo(j2, sp_ws(s, j2));
                    if !(j3 < s.len() && s[j3] == 0x3a) {
                        None
                    } else {
                        let j4 = clamp_lo(j3 + 1, sp_ws(s, j3 + 1));
                        match sp_skip(s, j4) {
                            Some(j5raw) => {
                                let j5 = bump(j4, j5raw);
                                let j6 = clamp_lo(j5, sp_ws(s, j5));
                                if !(j6 < s.len()) {
                                    None
                                } else if s[j6] == 0x2c {
                                    sp_skip_obj(s, bump(i, j6 + 1), false)
                                } else if s[j6] == 0x7d {
                                    Some(j6 + 1)
                                } else {
                                    None
                                }
                            },
                            None => None,
                        }
                    }
                },
                None => None,
            }
        }
    }
}

/// The key "children", as UTF-8 bytes.
pub open spec fn key_children() -> Seq<u8> {
    seq![0x63u8, 0x68u8, 0x69u8, 0x6cu8, 0x64u8, 0x72u8, 0x65u8, 0x6eu8]
}

/// The key "length", as UTF-8 bytes.
pub open spec fn key_length() -> Seq<u8> {
    seq![0x6cu8, 0x65u8, 0x6eu8, 0x67u8, 0x74u8, 0x68u8]
}

/// The key "name", as UTF-8 bytes.
pub open spec fn key_name() -> Seq<u8> {
    seq![0x6eu8, 0x61u8, 0x6du8, 0x65u8]
}

/// The key "root", as UTF-8 bytes.
pub open spec fn key_root() -> Seq<u8> {
    seq![0x72u8, 0x6fu8, 0x6fu8, 0x74u8]
}

/// The node an object's gathered members denote, and the given end
/// position: a "children" member makes an internal node and a "name" member
/// makes a leaf ("children" deciding when both are present); an absent
/// "length" defaults to zero. An object with neither key is no node.
pub open spec fn mk_node(
    length: Option<Rat>,
    children: Option<Seq<TreeV>>,
    name: Option<Seq<u8>>,
    end: int,
) -> Option<(TreeV, int)> {
    let len_rat = match length {
        Some(r) => r,
        None => Rat { num: 0, den: 1 },
    };
    match children {
        Some(cs) => Some((TreeV::Node { length: len_rat, children: cs }, end)),
        None => match name {
            Some(nm) => Some((TreeV::Leaf { length: len_rat, name: nm }, end)),
            None => None,
        },
    }
}

/// A tree node at `i`: a JSON object whose "length", "children" and "name"
/// members have the right shapes (a repeated one of them is a failure, an
/// unknown member is skipped), as `mk_node` combines them.
pub open spec fn sp_node(s: Seq<u8>, i: int) -> Option<(TreeV, int)>
    decreases rem(s, i), 0int,
{
    if 0 <= i < s.len() && s[i] == 0x7b {
        sp_members(s, i + 1, true, None, None, None)
    } else {
        None
    }
}

/// The remaining members of a node object, gathering what was seen so far.
pub open spec fn sp_members(
    s: Seq<u8>,
    i: int,
    first: bool,
    length: Option<Rat>,
    children: Option<Seq<TreeV>>,
    name: Option<Seq<u8>>,
) -> Option<(TreeV, int)>
    decreases rem(s, i), 2int,
{
    if i < 0 {
        None
    } else {
        let j = clamp_lo(i, sp_ws(s, i));
        if !(j < s.len()) {
            None
        } else if s[j] == 0x7d && first {
            mk_node(length, children, name, j + 1)
        } else {
            match sp_string(s, j) {
                Some((key, j2raw)) => {
                    let j2 = bump(j, j2raw);
                    let j3 = clamp_lo(j2, sp_ws(s, j2));
                    if !(j3 < s.len() && s[j3] == 0x3a) {
                        None
                    } else {
                        let j4 = clamp_lo(j3 + 1, sp_ws(s, j3 + 1));
                        if key == key_children() {
                            if children is Some {
                                None
                            } else if !(j4 < s.len() && s[j4] == 0x5b) {
                                None
                            } else {
                                match sp_node_list(s, j4 + 1, true) {
                                    Some((cs, j5raw)) => sp_member_end(
                                        s,
                                        bump(j4, j5raw),
                                        length,
                                        Some(cs),
                                        name,
                                    ),
                                    None => None,
                                }
                            }
                        } else if key == key_length() {
                            if length is Some {
                                None
                            } else {
                                match sp_number(s, j4) {
                                    Some((r, j5raw)) => sp_member_end(
                                        s,
                                        bump(j4, j5raw),
                                        Some(r),
                                        children,
                                        name,
                                    ),
                                    None => None,
                                }
                            }
                        } else if key == key_name() {
                            if name is Some {
                                None
                            } else {
                                match sp_string(s, j4) {
                                    Some((nm, j5raw)) => sp_member_end(
                                        s,
                                        bump(j4, j5raw),
                                        length,
                                        children,
                                        Some(nm),
                                    ),
                                    None => None,
                                }
                            }
                        } else {
                            match sp_skip(s, j4) {
                                Some(j5raw) => sp_member_end(
                                    s,
                                    bump(j4, j5raw),
                                    length,
                                    children,
                                    name,
                                ),
                                None => None,
                            }
                        }
                    }
                },
                None => None,
            }
        }
    }
}

/// After a member's value: a comma continues the object, a closing brace
/// finishes the node.
pub open spec fn sp_member_end(
    s: Seq<u8>,
    j: int,
    length: Option<Rat>,
    children: Option<Seq<TreeV>>,
    name: Option<Seq<u8>>,
) -> Option<(TreeV, int)>
    decreases rem(s, j), 2int,
{
    if j < 0 {
        None
    } else {
        let j6 = clamp_lo(j, sp_ws(s, j));
        if !(j6 < s.len()) {
            None
        } else if s[j6] == 0x2c {
            sp_members(s, bump(j, j6 + 1), false, length, children, name)
        } else if s[j6] == 0x7d {
            mk_node(length, children, name, j6 + 1)
        } else {
            None
        }
    }
}

/// The remainder of a "children" array: tree nodes and commas up to the
/// closing bracket.
pub open spec fn sp_node_list(s: Seq<u8>, i: int, first: bool) -> Option<(Seq<TreeV>, int)>
    decreases rem(s, i), 1int,
{
    if i < 0 {
        None
    } else {
        let j = clamp_lo(i, sp_ws(s, i));
        if !(j < s.len()) {
            None
        } else if s[j] == 0x5d && first {
            Some((Seq::empty(), j + 1))
        } else {
            match sp_node(s, j) {
                Some((t, j2raw)) => {
                    let j2 = bump(j, j2raw);
                    let j3 = clamp_lo(j2, sp_ws(s, j2));
                    if !(j3 < s.len()) {
                        None
                    } else if s[j3] == 0x2c {
                        match sp_node_list(s, bump(i, j3 + 1), false) {
                            Some((rest, j4)) => Some((seq![t] + rest, j4)),
                            None => None,
                        }
                    } else if s[j3] == 0x5d {
                        Some((seq![t], j3 + 1))
                    } else {
                        None
                    }
                },
                None => None,
            }
        }
    }
}

/// The whole document: one JSON object whose "root" member is the tree
/// (other members are skipped, a repeated "root" is a failure), with only
/// whitespace after it.
pub open spec fn sp_doc(s: Seq<u8>) -> Option<TreeV> {
    let i = clamp_lo(0, sp_ws(s, 0));
    if !(i < s.len() && s[i] == 0x7b) {
        None
    } else {
        match sp_root_members(s, i + 1, true, None) {
            Some((t, j)) => {
                let j2 = clamp_lo(j, sp_ws(s, j));
                if j2 == s.len() {
                    Some(t)
                } else {
                    None
                }
            },
            None => None,
        }
    }
}

/// The members of the top-level object, looking for "root".
pub open spec fn sp_root_members(s: Seq<u8>, i: int, first: bool, root: Option<TreeV>) -> Option<
    (TreeV, int),
>
    decreases rem(s, i), 3int,
{
    if i < 0 {
        None
    } else {
        let j = clamp_lo(i, sp_ws(s, i));
        if !(j < s.len()) {
            None
        } else if s[j] == 0x7d && first {
            match root {
                Some(t) => Some((t, j + 1)),
                None => None,
            }
        } else {
            match sp_string(s, j) {
                Some((key, j2raw)) => {
                    let j2 = bump(j, j2raw);
                    let j3 = clamp_lo(j2, sp_ws(s, j2));
                    if !(j3 < s.len() && s[j3] == 0x3a) {
                        None
                    } else {
                        let j4 = clamp_lo(j3 + 1, sp_ws(s, j3 + 1));
                        if key == key_root() {
                            if root is Some {
                                None
                            } else {
                                match sp_node(s, j4) {
                                    Some((t, j5raw)) => sp_root_end(s, bump(j4, j5raw), Some(t)),
                                    None => None,
                                }
                            }
                        } else {
                            match sp_skip(s, j4) {
                                Some(j5raw) => sp_root_end(s, bump(j4, j5raw), root),
                                None => None,
                            }
                        }
                    }
                },
                None => None,
            }
        }
    }
}

/// After a top-level member's value: comma or closing brace.
pub open spec fn sp_root_end(s: Seq<u8>, j: int, root: Option<TreeV>) -> Option<(TreeV, int)>
    decreases rem(s, j), 3int,
{
    if j < 0 {
        None
    } else {
        let j6 = clamp_lo(j, sp_ws(s, j));
        if !(j6 < s.len()) {
            None
        } else if s[j6] == 0x2c {
            sp_root_members(s, bump(j, j6 + 1), false, root)
        } else if s[j6] == 0x7d {
            match root {
                Some(t) => Some((t, j6 + 1)),
                None => None,
            }
        } else {
            None
        }
    }
}

} // verus!

verus! {

use crate::tree::forest_view;
use crate::tree::tree_view;
use crate::tree::Tree;

/// Exec mirror of `sp_skip`.
fn p_skip(s: &Vec<u8>, i: usize) -> (r: Option<usize>)
    requires
        i <= s.len(),
    ensures
        match r {
            Some(j) => sp_skip(s@, i as int) == Some(j as int) && i < j <= s.len(),
            None => sp_skip(s@, i as int) is None,
        },
    decreases rem(s@, i as int), 0int,
{
    if i >= s.len() {
        return None;
    }
    let b = s[i];
    if b == 0x6e {
        if s.len() - i >= 4 && s[i + 1] == 0x75 && s[i + 2] == 0x6c && s[i + 3] == 0x6c {
            Some(i + 4)
        } else {
            None
        }
    } else if b == 0x74 {
        if s.len() - i >= 4 && s[i + 1] == 0x72 && s[i + 2] == 0x75 && s[i + 3] == 0x65 {
            Some(i + 4)
        } else {
            None
        }
    } else if b == 0x66 {
        if s.len() - i >= 5 && s[i + 1] == 0x61 && s[i + 2] == 0x6c && s[i + 3] == 0x73 && s[i + 4]
            == 0x65 {
            Some(i + 5)
        } else {
            None
        }
    } else if b == 0x22 {
        match p_str_body(s, i + 1) {
            Some((_b, j)) => Some(j),
            None => None,
        }
    } else if b == 0x5b {
        p_skip_arr(s, i + 1, true)
    } else if b == 0x7b {
        p_skip_obj(s, i + 1, true)
    } else {
        match p_number(s, i) {
            Some((_r, j)) => Some(j),
            None => None,
        }
    }
}

/// Exec mirror of `sp_skip_arr`.
fn p_skip_arr(s: &Vec<u8>, i: usize, first: bool) -> (r: Option<usize>)
    requires
        i <= s.len(),
    ensures
        match r {
            Some(j) => sp_skip_arr(s@, i as int, first) == Some(j as int) && i < j <= s.len(),
            None => sp_skip_arr(s@, i as int, first) is None,
        },
    decreases rem(s@, i as int), 1int,
{
    let j = p_ws(s, i);
    if j >= s.len() {
        return None;
    }
    if s[j] == 0x5d && first {
        return Some(j + 1);
    }
    match p_skip(s, j) {
        Some(j2) => {
            proof {
                assert(bump(j as int, j2 as int) == j2 as int);
            }
            let j3 = p_ws(s, j2);
            if j3 >= s.len() {
                None
            } else if s[j3] == 0x2c {
                proof {
                    assert(bump(i as int, j3 as int + 1) == j3 as int + 1);
                }
                p_skip_arr(s, j3 + 1, false)
            } else if s[j3] == 0x5d {
                Some(j3 + 1)
            } else {
                None
            }
        },
        None => None,
    }
}

/// Exec mirror of `sp_skip_obj`.
fn p_skip_obj(s: &Vec<u8>, i: usize, first: bool) -> (r: Option<usize>)
    requires
        i <= s.len(),
    ensures
        match r {
            Some(j) => sp_skip_obj(s@, i as int, first) == Some(j as int) && i < j <= s.len(),
            None => sp_skip_obj(s@, i as int, first) is None,
        },
    decreases rem(s@, i as int), 1int,
{
    let j = p_ws(s, i);
    if j >= s.len() {
        return None;
    }
    if s[j] == 0x7d && first {
        return Some(j + 1);
    }
    match p_string(s, j) {
        Some((_key, j2)) => {
            proof {
                assert(bump(j as int, j2 as int) == j2 as int);
            }
            let j3 = p_ws(s, j2);
            if !(j3 < s.len() && s[j3] == 0x3a) {
                return None;
            }
            let j4 = p_ws(s, j3 + 1);
            match p_skip(s, j4) {
                Some(j5) => {
                    proof {
                        assert(bump(j4 as int, j5 as int) == j5 as int);
                    }
                    let j6 = p_ws(s, j5);
                    if j6 >= s.len() {
                        None
                    } else if s[j6] == 0x2c {
                        proof {
                            assert(bump(i as int, j6 as int + 1) == j6 as int + 1);
                        }
                        p_skip_obj(s, j6 + 1, false)
                    } else if s[j6] == 0x7d {
                        Some(j6 + 1)
                    } else {
                        None
                    }
                },
                None => None,
            }
        },
        None => None,
    }
}

/// Whether `v` spells "children".
fn is_key_children(v: &Vec<u8>) -> (r: bool)
    ensures
        r == (v@ == key_children()),
{
    let r = v.len() == 8 && v[0] == 0x63 && v[1] == 0x68 && v[2] == 0x69 && v[3] == 0x6c && v[4]
        == 0x64 && v[5] == 0x72 && v[6] == 0x65 && v[7] == 0x6e;
    proof {
        if r {
            assert(v@ =~= key_children());
        } else {
            assert(v@ != key_children());
        }
    }
    r
}

/// Whether `v` spells "length".
fn is_key_length(v: &Vec<u8>) -> (r: bool)
    ensures
        r == (v@ == key_length()),
{
    let r = v.len() == 6 && v[0] == 0x6c && v[1] == 0x65 && v[2] == 0x6e && v[3] == 0x67 && v[4]
        == 0x74 && v[5] == 0x68;
    proof {
        if r {
            assert(v@ =~= key_length());
        } else {
            assert(v@ != key_length());
        }
    }
    r
}

/// Whether `v` spells "name".
fn is_key_name(v: &Vec<u8>) -> (r: bool)
    ensures
        r == (v@ == key_name()),
{
    let r = v.len() == 4 && v[0] == 0x6e && v[1] == 0x61 && v[2] == 0x6d && v[3] == 0x65;
    proof {
        if r {
            assert(v@ =~= key_name());
        } else {
            assert(v@ != key_name());
        }
    }
    r
}

/// Whether `v` spells "root".
fn is_key_root(v: &Vec<u8>) -> (r: bool)
    ensures
        r == (v@ == key_root()),
{
    let r = v.len() == 4 && v[0] == 0x72 && v[1] == 0x6f && v[2] == 0x6f && v[3] == 0x74;
    proof {
        if r {
            assert(v@ =~= key_root());
        } else {
            assert(v@ != key_root());
        }
    }
    r
}

/// The gathered children as their model.
pub open spec fn opt_forest_view(c: Option<Vec<Tree>>) -> Option<Seq<TreeV>> {
    match c {
        Some(v) => Some(forest_view(v@)),
        None => None,
    }
}

/// The gathered name as its model.
pub open spec fn opt_bytes_view(n: Option<Vec<u8>>) -> Option<Seq<u8>> {
    match n {
        Some(v) => Some(v@),
        None => None,
    }
}

/// Exec mirror of `mk_node`.
fn p_mk_node(
    length: Option<Rat>,
    children: Option<Vec<Tree>>,
    name: Option<Vec<u8>>,
    end: usize,
) -> (r: Option<(Tree, usize)>)
    ensures
        match r {
            Some(p) => mk_node(length, opt_forest_view(children), opt_bytes_view(name), end as int)
                == Some((tree_view(p.0), p.1 as int)) && p.1 == end,
            None => mk_node(
                length,
                opt_forest_view(children),
                opt_bytes_view(name),
                end as int,
            ) is None,
        },
{
    let len_rat = match length {
        Some(r) => r,
        None => Rat { num: 0, den: 1 },
    };
    match children {
        Some(cs) => Some((Tree::Node { length: len_rat, children: cs }, end)),
        None => match name {
            Some(nm) => Some((Tree::Leaf { length: len_rat, name: nm }, end)),
            None => None,
        },
    }
}

/// Exec mirror of `sp_node`.
fn p_node(s: &Vec<u8>, i: usize) -> (r: Option<(Tree, usize)>)
    requires
        i <= s.len(),
    ensures
        match r {
            Some(p) => sp_node(s@, i as int) == Some((tree_view(p.0), p.1 as int)) && i < p.1
                <= s.len(),
            None => sp_node(s@, i as int) is None,
        },
    decreases rem(s@, i as int), 0int,
{
    if i < s.len() && s[i] == 0x7b {
        p_members(s, i + 1, true, None, None, None)
    } else {
        None
    }
}

/// Exec mirror of `sp_members`.
fn p_members(
    s: &Vec<u8>,
    i: usize,
    first: bool,
    length: Option<Rat>,
    children: Option<Vec<Tree>>,
    name: Option<Vec<u8>>,
) -> (r: Option<(Tree, usize)>)
    requires
        i <= s.len(),
    ensures
        match r {
            Some(p) => sp_members(
                s@,
                i as int,
                first,
                length,
                opt_forest_view(children),
                opt_bytes_view(name),
            ) == Some((tree_view(p.0), p.1 as int)) && i < p.1 <= s.len(),
            None => sp_members(
                s@,
                i as int,
                first,
                length,
                opt_forest_view(children),
                opt_bytes_view(name),
            ) is None,
        },
    decreases rem(s@, i as int), 2int,
{
    let j = p_ws(s, i);
    if j >= s.len() {
        return None;
    }
    if s[j] == 0x7d && first {
        return p_mk_node(length, children, name, j + 1);
    }
    match p_string(s, j) {
        Some((key, j2)) => {
            proof {
                assert(bump(j as int, j2 as int) == j2 as int);
            }
            let j3 = p_ws(s, j2);
            if !(j3 < s.len() && s[j3] == 0x3a) {
                return None;
            }
            let j4 = p_ws(s, j3 + 1);
            if is_key_children(&key) {
                if children.is_some() {
                    return None;
                }
                if !(j4 < s.len() && s[j4] == 0x5b) {
                    return None;
                }
                match p_node_list(s, j4 + 1, true) {
                    Some((cs, j5)) => {
                        proof {
                            assert(bump(j4 as int, j5 as int) == j5 as int);
                        }
                        p_member_end(s, j5, length, Some(cs), name)
                    },
                    None => None,
                }
            } else if is_key_length(&key) {
                if length.is_some() {
                    return None;
                }
                match p_number(s, j4) {
                    Some((r, j5)) => {
                        proof {
                            assert(bump(j4 as int, j5 as int) == j5 as int);
                        }
                        p_member_end(s, j5, Some(r), children, name)
                    },
                    None => None,
                }
            } else if is_key_name(&key) {
                if name.is_some() {
                    return None;
                }
                match p_string(s, j4) {
                    Some((nm, j5)) => {
                        proof {
                            assert(bump(j4 as int, j5 as int) == j5 as int);
                        }
                        p_member_end(s, j5, length, children, Some(nm))
                    },
                    None => None,
                }
            } else {
                match p_skip(s, j4) {
                    Some(j5) => {
                        proof {
                            assert(bump(j4 as int, j5 as int) == j5 as int);
                        }
                        p_member_end(s, j5, length, children, name)
                    },
                    None => None,
                }
            }
        },
        None => None,
    }
}

/// Exec mirror of `sp_member_end`.
fn p_member_end(
    s: &Vec<u8>,
    j: usize,
    length: Option<Rat>,
    children: Option<Vec<Tree>>,
    name: Option<Vec<u8>>,
) -> (r: Option<(Tree, usize)>)
    requires
        j <= s.len(),
    ensures
        match r {
            Some(p) => sp_member_end(
                s@,
                j as int,
                length,
                opt_forest_view(children),
                opt_bytes_view(name),
            ) == Some((tree_view(p.0), p.1 as int)) && j < p.1 <= s.len(),
            None => sp_member_end(
                s@,
                j as int,
                length,
                opt_forest_view(children),
                opt_bytes_view(name),
            ) is None,
        },
    decreases rem(s@, j as int), 2int,
{
    let j6 = p_ws(s, j);
    if j6 >= s.len() {
        None
    } else if s[j6] == 0x2c {
        proof {
            assert(bump(j as int, j6 as int + 1) == j6 as int + 1);
        }
        p_members(s, j6 + 1, false, length, children, name)
    } else if s[j6] == 0x7d {
        p_mk_node(length, children, name, j6 + 1)
    } else {
        None
    }
}

/// Exec mirror of `sp_node_list`.
fn p_node_list(s: &Vec<u8>, i: usize, first: bool) -> (r: Option<(Vec<Tree>, usize)>)
    requires
        i <= s.len(),
    ensures
        match r {
            Some(p) => sp_node_list(s@, i as int, first) == Some((forest_view(p.0@), p.1 as int))
                && i < p.1 <= s.len(),
            None => sp_node_list(s@, i as int, first) is None,
        },
    decreases rem(s@, i as int), 1int,
{
    let j = p_ws(s, i);
    if j >= s.len() {
        return None;
    }
    if s[j] == 0x5d && first {
        let out: Vec<Tree> = Vec::new();
        proof {
            assert(forest_view(out@) =~= Seq::<TreeV>::empty());
        }
        return Some((out, j + 1));
    }
    match p_node(s, j) {
        Some((t, j2)) => {
            proof {
                assert(bump(j as int, j2 as int) == j2 as int);
            }
            let j3 = p_ws(s, j2);
            if j3 >= s.len() {
                None
            } else if s[j3] == 0x2c {
                proof {
                    assert(bump(i as int, j3 as int + 1) == j3 as int + 1);
                }
                match p_node_list(s, j3 + 1, false) {
                    Some((mut rest, j4)) => {
                        let ghost t_snap = t;
                        let ghost rest_snap = rest@;
                        let mut out: Vec<Tree> = Vec::new();
                        out.push(t);
                        out.append(&mut rest);
                        proof {
                            assert(forest_view(out@) =~= seq![tree_view(t_snap)] + forest_view(
                                rest_snap,
                            ));
                        }
                        Some((out, j4))
                    },
                    None => None,
                }
            } else if s[j3] == 0x5d {
                let ghost t_snap = t;
                let mut out: Vec<Tree> = Vec::new();
                out.push(t);
                proof {
                    assert(forest_view(out@) =~= seq![tree_view(t_snap)]);
                }
                Some((out, j3 + 1))
            } else {
                None
            }
        },
        None => None,
    }
}

/// Exec mirror of `sp_root_members`.
fn p_root_members(s: &Vec<u8>, i: usize, first: bool, root: Option<Tree>) -> (r: Option<
    (Tree, usize),
>)
    requires
        i <= s.len(),
    ensures
        match r {
            Some(p) => sp_root_members(s@, i as int, first, opt_tree_view(root)) == Some(
                (tree_view(p.0), p.1 as int),
            ) && i < p.1 <= s.len(),
            None => sp_root_members(s@, i as int, first, opt_tree_view(root)) is None,
        },
    decreases rem(s@, i as int), 3int,
{
    let j = p_ws(s, i);
    if j >= s.len() {
        return None;
    }
    if s[j] == 0x7d && first {
        return match root {
            Some(t) => Some((t, j + 1)),
            None => None,
        };
    }
    match p_string(s, j) {
        Some((key, j2)) => {
            proof {
                assert(bump(j as int, j2 as int) == j2 as int);
            }
            let j3 = p_ws(s, j2);
            if !(j3 < s.len() && s[j3] == 0x3a) {
                return None;
            }
            let j4 = p_ws(s, j3 + 1);
            if is_key_root(&key) {
                if root.is_some() {
                    return None;
                }
                match p_node(s, j4) {
                    Some((t, j5)) => {
                        proof {
                            assert(bump(j4 as int, j5 as int) == j5 as int);
                        }
                        p_root_end(s, j5, Some(t))
                    },
                    None => None,
                }
            } else {
                match p_skip(s, j4) {
                    Some(j5) => {
                        proof {
                            assert(bump(j4 as int, j5 as int) == j5 as int);
                        }
                        p_root_end(s, j5, root)
                    },
                    None => None,
                }
            }
        },
        None => None,
    }
}

/// The gathered root as its model.
pub open spec fn opt_tree_view(t: Option<Tree>) -> Option<TreeV> {
    match t {
        Some(t0) => Some(tree_view(t0)),
        None => None,
    }
}

/// Exec mirror of `sp_root_end`.
fn p_root_end(s: &Vec<u8>, j: usize, root: Option<Tree>) -> (r: Option<(Tree, usize)>)
    requires
        j <= s.len(),
    ensures
        match r {
            Some(p) => sp_root_end(s@, j as int, opt_tree_view(root)) == Some(
                (tree_view(p.0), p.1 as int),
            ) && j < p.1 <= s.len(),
            None => sp_root_end(s@, j as int, opt_tree_view(root)) is None,
        },
    decreases rem(s@, j as int), 3int,
{
    let j6 = p_ws(s, j);
    if j6 >= s.len() {
        None
    } else if s[j6] == 0x2c {
        proof {
            assert(bump(j as int, j6 as int + 1) == j6 as int + 1);
        }
        p_root_members(s, j6 + 1, false, root)
    } else if s[j6] == 0x7d {
        match root {
            Some(t) => Some((t, j6 + 1)),
            None => None,
        }
    } else {
        None
    }
}

/// Exec mirror of `sp_doc`: the tree the whole document denotes, or nothing
/// where the document is not a well-formed tree document.
pub fn p_doc(s: &Vec<u8>) -> (r: Option<Tree>)
    ensures
        match r {
            Some(t) => sp_doc(s@) == Some(tree_view(t)),
            None => sp_doc(s@) is None,
        },
{
    let i = p_ws(s, 0);
    if !(i < s.len() && s[i] == 0x7b) {
        return None;
    }
    match p_root_members(s, i + 1, true, None) {
        Some((t, j)) => {
            let j2 = p_ws(s, j);
            if j2 == s.len() {
                Some(t)
            } else {
                None
            }
        },
        None => None,
    }
}

} // verus!

verus! {

use crate::rat::rat_wf;
use crate::tree::tree_wf;

/// A parsed number is a well-defined rational.
pub proof fn lemma_mk_rat_wf(neg: bool, m: int, f: nat, e: int, end: int)
    ensures
        mk_rat(neg, m, f, e, end) matches Some(p) ==> rat_wf(p.0),
{
    if e < f {
        lemma_pow10_mono(0, (f - e) as nat);
    }
}

/// Everything `sp_number` returns is a well-defined rational.
pub proof fn lemma_sp_number_wf(s: Seq<u8>, i: int)
    ensures
        sp_number(s, i) matches Some(p) ==> rat_wf(p.0),
{
    let neg = 0 <= i < s.len() && s[i] == 0x2d;
    let i1 = if neg {
        i + 1
    } else {
        i
    };
    if 0 <= i1 < s.len() && is_digit(s[i1]) {
        let i2 = sp_digits_end(s, i1);
        let m1 = digits_val(s, i1, i2);
        if i2 < s.len() && s[i2] == 0x2e {
            if i2 + 1 < s.len() && is_digit(s[i2 + 1]) {
                let i3 = sp_digits_end(s, i2 + 1);
                let f = (i3 - i2 - 1) as nat;
                let m = m1 * pow10(f) + digits_val(s, i2 + 1, i3);
                lemma_sp_number_exp_wf(s, i3, neg, m, f);
            }
        } else {
            lemma_sp_number_exp_wf(s, i2, neg, m1, 0);
        }
    }
}

/// Everything `sp_number_exp` returns is a well-defined rational.
pub proof fn lemma_sp_number_exp_wf(s: Seq<u8>, i: int, neg: bool, m: int, f: nat)
    ensures
        sp_number_exp(s, i, neg, m, f) matches Some(p) ==> rat_wf(p.0),
{
    if 0 <= i < s.len() && (s[i] == 0x65 || s[i] == 0x45) {
        let i1 = if i + 1 < s.len() && (s[i + 1] == 0x2b || s[i + 1] == 0x2d) {
            i + 2
        } else {
            i + 1
        };
        if i1 < s.len() && is_digit(s[i1]) {
            let i2 = sp_digits_end(s, i1);
            let ev = digits_val(s, i1, i2);
            let eneg = i + 1 < s.len() && s[i + 1] == 0x2d;
            lemma_mk_rat_wf(
                neg,
                m,
                f,
                if eneg {
                    -ev
                } else {
                    ev
                },
                i2,
            );
        }
    } else {
        lemma_mk_rat_wf(neg, m, f, 0, i);
    }
}

/// Everything `sp_node` returns is a well-formed tree: every branch length
/// in it is a well-defined rational.
pub proof fn lemma_sp_node_wf(s: Seq<u8>, i: int)
    ensures
        sp_node(s, i) matches Some(p) ==> tree_wf(p.0),
    decreases rem(s, i), 0int,
{
    if 0 <= i < s.len() && s[i] == 0x7b {
        lemma_sp_members_wf(s, i + 1, true, None, None, None);
    }
}

/// The length gathered so far is well-defined.
pub open spec fn opt_rat_wf(length: Option<Rat>) -> bool {
    match length {
        Some(r) => rat_wf(r),
        None => true,
    }
}

/// The children gathered so far are well-formed.
pub open spec fn opt_forest_wf(children: Option<Seq<TreeV>>) -> bool {
    match children {
        Some(cs) => forall|k: int| 0 <= k < cs.len() ==> tree_wf(#[trigger] cs[k]),
        None => true,
    }
}

/// `mk_node` of well-formed parts is well-formed.
pub proof fn lemma_mk_node_wf(
    length: Option<Rat>,
    children: Option<Seq<TreeV>>,
    name: Option<Seq<u8>>,
    end: int,
)
    requires
        opt_rat_wf(length),
        opt_forest_wf(children),
    ensures
        mk_node(length, children, name, end) matches Some(p) ==> tree_wf(p.0),
{
}

/// Everything `sp_members` returns is a well-formed tree, given
/// well-formed gathered parts.
pub proof fn lemma_sp_members_wf(
    s: Seq<u8>,
    i: int,
    first: bool,
    length: Option<Rat>,
    children: Option<Seq<TreeV>>,
    name: Option<Seq<u8>>,
)
    requires
        opt_rat_wf(length),
        opt_forest_wf(children),
    ensures
        sp_members(s, i, first, length, children, name) matches Some(p) ==> tree_wf(p.0),
    decreases rem(s, i), 2int,
{
    if i >= 0 {
        let j = clamp_lo(i, sp_ws(s, i));
        if j < s.len() {
            if s[j] == 0x7d && first {
                lemma_mk_node_wf(length, children, name, j + 1);
            } else {
                match sp_string(s, j) {
                    Some((key, j2raw)) => {
                        let j2 = bump(j, j2raw);
                        let j3 = clamp_lo(j2, sp_ws(s, j2));
                        if j3 < s.len() && s[j3] == 0x3a {
                            let j4 = clamp_lo(j3 + 1, sp_ws(s, j3 + 1));
                            if key == key_children() {
                                if children is None && j4 < s.len() && s[j4] == 0x5b {
                                    lemma_sp_node_list_wf(s, j4 + 1, true);
                                    match sp_node_list(s, j4 + 1, true) {
                                        Some((cs, j5raw)) => {
                                            lemma_sp_member_end_wf(
                                                s,
                                                bump(j4, j5raw),
                                                length,
                                                Some(cs),
                                                name,
                                            );
                                        },
                                        None => {},
                                    }
                                }
                            } else if key == key_length() {
                                if length is None {
                                    lemma_sp_number_wf(s, j4);
                                    match sp_number(s, j4) {
                                        Some((r, j5raw)) => {
                                            lemma_sp_member_end_wf(
                                                s,
                                                bump(j4, j5raw),
                                                Some(r),
                                                children,
                                                name,
                                            );
                                        },
                                        None => {},
                                    }
                                }
                            } else if key == key_name() {
                                match sp_string(s, j4) {
                                    Some((nm, j5raw)) => {
                                        lemma_sp_member_end_wf(
                                            s,
                                            bump(j4, j5raw),
                                            length,
                                            children,
                                            Some(nm),
                                        );
                                    },
                                    None => {},
                                }
                            } else {
                                match sp_skip(s, j4) {
                                    Some(j5raw) => {
                                        lemma_sp_member_end_wf(
                                            s,
                                            bump(j4, j5raw),
                                            length,
                                            children,
                                            name,
                                        );
                                    },
                                    None => {},
                                }
                            }
                        }
                    },
                    None => {},
                }
            }
        }
    }
}

/// Everything `sp_member_end` returns is a well-formed tree, given
/// well-formed gathered parts.
pub proof fn lemma_sp_member_end_wf(
    s: Seq<u8>,
    j: int,
    length: Option<Rat>,
    children: Option<Seq<TreeV>>,
    name: Option<Seq<u8>>,
)
    requires
        opt_rat_wf(length),
        opt_forest_wf(children),
    ensures
        sp_member_end(s, j, length, children, name) matches Some(p) ==> tree_wf(p.0),
    decreases rem(s, j), 2int,
{
    if j >= 0 {
        let j6 = clamp_lo(j, sp_ws(s, j));
        if j6 < s.len() {
            if s[j6] == 0x2c {
                lemma_sp_members_wf(s, bump(j, j6 + 1), false, length, children, name);
            } else if s[j6] == 0x7d {
                lemma_mk_node_wf(length, children, name, j6 + 1);
            }
        }
    }
}

/// Every tree `sp_node_list` returns is well-formed.
pub proof fn lemma_sp_node_list_wf(s: Seq<u8>, i: int, first: bool)
    ensures
        sp_node_list(s, i, first) matches Some(p) ==> forall|k: int|
            0 <= k < p.0.len() ==> tree_wf(#[trigger] p.0[k]),
    decreases rem(s, i), 1int,
{
    if i >= 0 {
        let j = clamp_lo(i, sp_ws(s, i));
        if j < s.len() && !(s[j] == 0x5d && first) {
            lemma_sp_node_wf(s, j);
            match sp_node(s, j) {
                Some((t, j2raw)) => {
                    let j2 = bump(j, j2raw);
                    let j3 = clamp_lo(j2, sp_ws(s, j2));
                    if j3 < s.len() && s[j3] == 0x2c {
                        lemma_sp_node_list_wf(s, bump(i, j3 + 1), false);
                        match sp_node_list(s, bump(i, j3 + 1), false) {
                            Some((rest, _j4)) => {
                                assert(forall|k: int|
                                    1 <= k < rest.len() + 1 ==> (seq![t] + rest)[k] == rest[k - 1]);
                            },
                            None => {},
                        }
                    }
                },
                None => {},
            }
        }
    }
}

/// Every tree `sp_doc` returns is well-formed: all its branch lengths are
/// well-defined rationals.
pub proof fn lemma_sp_doc_wf(s: Seq<u8>)
    ensures
        sp_doc(s) matches Some(t) ==> tree_wf(t),
{
    let i = clamp_lo(0, sp_ws(s, 0));
    if i < s.len() && s[i] == 0x7b {
        lemma_sp_root_members_wf(s, i + 1, true, None);
    }
}

/// The root gathered so far is well-formed.
pub open spec fn opt_tree_wf(root: Option<TreeV>) -> bool {
    match root {
        Some(t) => tree_wf(t),
        None => true,
    }
}

/// Everything `sp_root_members` returns is a well-formed tree.
pub proof fn lemma_sp_root_members_wf(s: Seq<u8>, i: int, first: bool, root: Option<TreeV>)
    requires
        opt_tree_wf(root),
    ensures
        sp_root_members(s, i, first, root) matches Some(p) ==> tree_wf(p.0),
    decreases rem(s, i), 3int,
{
    if i >= 0 {
        let j = clamp_lo(i, sp_ws(s, i));
        if j < s.len() && !(s[j] == 0x7d && first) {
            match sp_string(s, j) {
                Some((key, j2raw)) => {
                    let j2 = bump(j, j2raw);
                    let j3 = clamp_lo(j2, sp_ws(s, j2));
                    if j3 < s.len() && s[j3] == 0x3a {
                        let j4 = clamp_lo(j3 + 1, sp_ws(s, j3 + 1));
                        if key == key_root() {
                            if root is None {
                                lemma_sp_node_wf(s, j4);
                                match sp_node(s, j4) {
                                    Some((t, j5raw)) => {
                                        lemma_sp_root_end_wf(s, bump(j4, j5raw), Some(t));
                                    },
                                    None => {},
                                }
                            }
                        } else {
                            match sp_skip(s, j4) {
                                Some(j5raw) => {
                                    lemma_sp_root_end_wf(s, bump(j4, j5raw), root);
                                },
                                None => {},
                            }
                        }
                    }
                },
                None => {},
            }
        }
    }
}

/// Everything `sp_root_end` returns is a well-formed tree.
pub proof fn lemma_sp_root_end_wf(s: Seq<u8>, j: int, root: Option<TreeV>)
    requires
        opt_tree_wf(root),
    ensures
        sp_root_end(s, j, root) matches Some(p) ==> tree_wf(p.0),
    decreases rem(s, j), 3int,
{
    if j >= 0 {
        let j6 = clamp_lo(j, sp_ws(s, j));
        if j6 < s.len() && s[j6] == 0x2c {
            lemma_sp_root_members_wf(s, bump(j, j6 + 1), false, root);
        }
    }
}

} // verus!
