use vstd::prelude::*;

verus! {

/// A sample's mantissa stays below `10^MAX_DIGITS` in magnitude.
pub const MAX_DIGITS: usize = 18;

/// Most digits a sample keeps after its decimal point.
pub const MAX_FRACTION_DIGITS: usize = 9;

pub open spec fn pow10(n: nat) -> int
    decreases n,
{
    if n == 0 {
        1
    } else {
        10 * pow10((n - 1) as nat)
    }
}

/// An exact decimal number, `mant / 10^exp`.
#[derive(Clone, Copy, Debug, PartialEq, Eq, Structural)]
pub struct Decimal {
    pub mant: i64,
    pub exp: u32,
}

impl Decimal {
    pub open spec fn wf(&self) -> bool {
        -pow10(MAX_DIGITS as nat) < self.mant < pow10(MAX_DIGITS as nat) && self.exp
            <= MAX_FRACTION_DIGITS
    }

    /// The number `mant / 10^exp`.
    pub fn new(mant: i64, exp: u32) -> (d: Decimal)
        requires
            -1_000_000_000_000_000_000 < mant < 1_000_000_000_000_000_000,
            exp <= 9,
        ensures
            d.wf(),
            d.mant == mant,
            d.exp == exp,
    {
        proof {
            lemma_pow10_18();
        }
        Decimal { mant, exp }
    }
}

pub proof fn lemma_pow10_18()
    ensures
        pow10(18) == 1_000_000_000_000_000_000,
        pow10(9) == 1_000_000_000,
{
    reveal_with_fuel(pow10, 19);
}

pub proof fn lemma_pow10_positive(n: nat)
    ensures
        pow10(n) >= 1,
    decreases n,
{
    if n > 0 {
        lemma_pow10_positive((n - 1) as nat);
    }
}

pub proof fn lemma_pow10_monotone(a: nat, b: nat)
    requires
        a <= b,
    ensures
        pow10(a) <= pow10(b),
    decreases b,
{
    if a < b {
        lemma_pow10_monotone(a, (b - 1) as nat);
        lemma_pow10_positive((b - 1) as nat);
    }
}

pub open spec fn is_digit(c: u8) -> bool {
    48 <= c <= 57
}

pub open spec fn all_digits(s: Seq<u8>) -> bool {
    forall|i: int| 0 <= i < s.len() ==> is_digit(#[trigger] s[i])
}

/// The number that a string of decimal digits spells.
pub open spec fn digits_value(s: Seq<u8>) -> int
    decreases s.len(),
{
    if s.len() == 0 {
        0
    } else {
        10 * digits_value(s.drop_last()) + (s.last() - 48)
    }
}

/// The field with its leading spaces removed.
pub open spec fn trim_leading_spaces(s: Seq<u8>) -> Seq<u8>
    decreases s.len(),
{
    if s.len() > 0 && s[0] == 32 {
        trim_leading_spaces(s.drop_first())
    } else {
        s
    }
}

/// Index of the first `.` in `s`, or its length where there is none.
pub open spec fn dot_index(s: Seq<u8>) -> int
    decreases s.len(),
{
    if s.len() == 0 {
        0
    } else if s[0] == 46 {
        0
    } else {
        1 + dot_index(s.drop_first())
    }
}

pub open spec fn integer_part(s: Seq<u8>) -> Seq<u8> {
    s.subrange(0, dot_index(s))
}

pub open spec fn fraction_part(s: Seq<u8>) -> Seq<u8> {
    if dot_index(s) < s.len() {
        s.subrange(dot_index(s) + 1, s.len() as int)
    } else {
        Seq::empty()
    }
}

/// The digits and the optional point of a number, with any sign removed.
pub open spec fn unsigned_part(s: Seq<u8>) -> Seq<u8> {
    if s.len() > 0 && (s[0] == 45 || s[0] == 43) {
        s.drop_first()
    } else {
        s
    }
}

pub open spec fn is_negative(s: Seq<u8>) -> bool {
    s.len() > 0 && s[0] == 45
}

/// Index of the first exponent mark (`e` or `E`) in `s`, or its length.
pub open spec fn exp_index(s: Seq<u8>) -> int
    decreases s.len(),
{
    if s.len() == 0 {
        0
    } else if s[0] == 101 || s[0] == 69 {
        0
    } else {
        1 + exp_index(s.drop_first())
    }
}

pub open spec fn has_exponent(u: Seq<u8>) -> bool {
    exp_index(u) < u.len()
}

/// The part of an unsigned number before its exponent mark.
pub open spec fn significand(u: Seq<u8>) -> Seq<u8> {
    u.subrange(0, exp_index(u))
}

/// The signed integer after the exponent mark; empty where there is none.
pub open spec fn exponent_text(u: Seq<u8>) -> Seq<u8> {
    if has_exponent(u) {
        u.subrange(exp_index(u) + 1, u.len() as int)
    } else {
        Seq::empty()
    }
}

pub open spec fn exponent_value(u: Seq<u8>) -> int {
    let x = exponent_text(u);
    let v = digits_value(unsigned_part(x));
    if is_negative(x) {
        -v
    } else {
        v
    }
}

/// Whether `s` is written as a decimal floating-point number: an optional
/// sign, digits with at most one point (at least one digit in all), then
/// optionally `e` or `E` and a signed integer.
pub open spec fn is_number(s: Seq<u8>) -> bool {
    let u = unsigned_part(s);
    let m = significand(u);
    &&& all_digits(integer_part(m))
    &&& all_digits(fraction_part(m))
    &&& integer_part(m).len() + fraction_part(m).len() >= 1
    &&& has_exponent(u) ==> unsigned_part(exponent_text(u)).len() >= 1 && all_digits(
        unsigned_part(exponent_text(u)),
    )
}

/// All digits of a number, without its point.
pub open spec fn digits_of(s: Seq<u8>) -> Seq<u8> {
    let m = significand(unsigned_part(s));
    integer_part(m) + fraction_part(m)
}

/// How many of `digits_of(s)` stand before the point once the exponent is
/// applied (negative, or past the end, where it moves the point that far).
pub open spec fn point_of(s: Seq<u8>) -> int {
    integer_part(significand(unsigned_part(s))).len() + exponent_value(unsigned_part(s))
}

pub open spec fn zeros(n: int) -> Seq<u8> {
    Seq::new(n as nat, |i: int| 48u8)
}

/// The first `k` digits of `g`, with zeros appended where `k` runs past it.
pub open spec fn padded_prefix(g: Seq<u8>, k: int) -> Seq<u8> {
    if k <= 0 {
        Seq::empty()
    } else if k <= g.len() {
        g.take(k)
    } else {
        g + zeros(k - g.len())
    }
}

/// The magnitude of number `s` cut toward zero after `e` fraction digits,
/// counted in units of `10^-e`.
pub open spec fn units(s: Seq<u8>, e: int) -> int {
    digits_value(padded_prefix(digits_of(s), point_of(s) + e))
}

/// The fraction digits that number `s` has, but at most
/// `MAX_FRACTION_DIGITS`.
pub open spec fn fraction_len(s: Seq<u8>) -> int {
    let f = digits_of(s).len() - point_of(s);
    if f < 0 {
        0
    } else if f > MAX_FRACTION_DIGITS {
        MAX_FRACTION_DIGITS as int
    } else {
        f
    }
}

/// The most fraction digits, at most `e`, with which the magnitude of `s`
/// stays below `10^MAX_DIGITS`; `None` where even none are too many.
pub open spec fn fit_exp(s: Seq<u8>, e: int) -> Option<int>
    decreases e,
{
    if units(s, e) < pow10(MAX_DIGITS as nat) {
        Some(e)
    } else if e <= 0 {
        None
    } else {
        fit_exp(s, e - 1)
    }
}

pub open spec fn signed(neg: bool, m: int) -> i64 {
    (if neg {
        -m
    } else {
        m
    }) as i64
}

/// The sample of greatest magnitude, with the given sign.
pub open spec fn largest(neg: bool) -> Decimal {
    Decimal { mant: signed(neg, pow10(MAX_DIGITS as nat) - 1), exp: 0 }
}

/// The decimal that number `s` loads as: its value cut toward zero after
/// at most `MAX_FRACTION_DIGITS` fraction digits, fewer where the mantissa
/// would not fit, and the largest sample of its sign where none fits.
pub open spec fn number_value(s: Seq<u8>) -> Decimal {
    let neg = is_negative(s);
    match fit_exp(s, fraction_len(s)) {
        Some(e) => Decimal { mant: signed(neg, units(s, e)), exp: e as u32 },
        None => largest(neg),
    }
}

pub open spec fn lower(c: u8) -> u8 {
    if 65 <= c <= 90 {
        (c + 32) as u8
    } else {
        c
    }
}

/// Whether `u` spells `w` (given in lower case), letters in any case.
pub open spec fn is_word(u: Seq<u8>, w: Seq<u8>) -> bool {
    u.len() == w.len() && forall|i: int| 0 <= i < u.len() ==> lower(#[trigger] u[i]) == w[i]
}

pub open spec fn is_infinity(u: Seq<u8>) -> bool {
    is_word(u, seq![105u8, 110, 102]) || is_word(u, seq![105u8, 110, 102, 105, 110, 105, 116, 121])
}

pub open spec fn is_nan(u: Seq<u8>) -> bool {
    is_word(u, seq![110u8, 97, 110])
}

/// What a field of the source text reads as once its leading spaces are
/// trimmed. A decimal floating-point number loads as `number_value`; an
/// infinity (`inf` or `infinity`, any case, optionally signed) as the
/// largest sample of its sign; a not-a-number (`nan`) as zero. Anything
/// else is no number: `None`.
pub open spec fn field_value(f: Seq<u8>) -> Option<Decimal> {
    let t = trim_leading_spaces(f);
    let u = unsigned_part(t);
    if is_infinity(u) {
        Some(largest(is_negative(t)))
    } else if is_nan(u) {
        Some(Decimal { mant: 0, exp: 0 })
    } else if is_number(t) {
        Some(number_value(t))
    } else {
        None
    }
}

proof fn lemma_trim_at(s: Seq<u8>, i: int)
    requires
        0 <= i <= s.len(),
        forall|k: int| 0 <= k < i ==> s[k] == 32,
        i == s.len() || s[i] != 32,
    ensures
        trim_leading_spaces(s) == s.subrange(i, s.len() as int),
    decreases i,
{
    if i == 0 {
        assert(s.subrange(0, s.len() as int) =~= s);
    } else {
        let t = s.drop_first();
        assert forall|k: int| 0 <= k < i - 1 implies t[k] == 32 by {
            assert(t[k] == s[k + 1]);
        }
        lemma_trim_at(t, i - 1);
        assert(t.subrange(i - 1, t.len() as int) =~= s.subrange(i, s.len() as int));
    }
}

proof fn lemma_dot_at(s: Seq<u8>, i: int)
    requires
        0 <= i <= s.len(),
        forall|k: int| 0 <= k < i ==> s[k] != 46,
        i == s.len() || s[i] == 46,
    ensures
        dot_index(s) == i,
    decreases i,
{
    if i > 0 {
        let t = s.drop_first();
        assert forall|k: int| 0 <= k < i - 1 implies t[k] != 46 by {
            assert(t[k] == s[k + 1]);
        }
        lemma_dot_at(t, i - 1);
    }
}

proof fn lemma_digits_value_bound(s: Seq<u8>)
    requires
        all_digits(s),
    ensures
        0 <= digits_value(s) < pow10(s.len()),
    decreases s.len(),
{
    if s.len() > 0 {
        let t = s.drop_last();
        assert(all_digits(t)) by {
            assert forall|i: int| 0 <= i < t.len() implies is_digit(#[trigger] t[i]) by {
                assert(t[i] == s[i]);
            }
        }
        lemma_digits_value_bound(t);
        assert(is_digit(s[s.len() - 1]));
    }
}

proof fn lemma_exp_at(s: Seq<u8>, i: int)
    requires
        0 <= i <= s.len(),
        forall|k: int| 0 <= k < i ==> s[k] != 101 && s[k] != 69,
        i == s.len() || s[i] == 101 || s[i] == 69,
    ensures
        exp_index(s) == i,
    decreases i,
{
    if i > 0 {
        let t = s.drop_first();
        assert forall|k: int| 0 <= k < i - 1 implies t[k] != 101 && t[k] != 69 by {
            assert(t[k] == s[k + 1]);
        }
        lemma_exp_at(t, i - 1);
    }
}

pub open spec fn capped(v: int, c: int) -> int {
    if v < c {
        v
    } else {
        c
    }
}

proof fn lemma_capped_step(v: int, d: int, c: int)
    requires
        v >= 0,
        0 <= d <= 9,
        c >= 0,
    ensures
        capped(10 * capped(v, c) + d, c) == capped(10 * v + d, c),
{
}

proof fn lemma_digits_zeros(s: Seq<u8>, r: int)
    requires
        r >= 0,
    ensures
        digits_value(s + zeros(r)) == digits_value(s) * pow10(r as nat),
    decreases r,
{
    if r > 0 {
        lemma_digits_zeros(s, r - 1);
        assert((s + zeros(r)).drop_last() =~= s + zeros(r - 1));
        assert(digits_value(s) * pow10(r as nat) == 10 * (digits_value(s) * pow10((r - 1) as nat)))
            by (nonlinear_arith)
            requires
                pow10(r as nat) == 10 * pow10((r - 1) as nat),
        ;
    } else {
        assert(s + zeros(0) =~= s);
    }
}

proof fn lemma_pow10_19()
    ensures
        pow10(19) == 10_000_000_000_000_000_000,
{
    reveal_with_fuel(pow10, 20);
}

/// A point far before the digits, or far past them, gives the same capped
/// units whatever its exact place.
proof fn lemma_far_point(g: Seq<u8>, k1: int, k2: int)
    requires
        all_digits(g),
        (k1 <= 0 && k2 <= 0) || (k1 >= g.len() + 19 && k2 >= g.len() + 19),
    ensures
        capped(digits_value(padded_prefix(g, k1)), pow10(18)) == capped(
            digits_value(padded_prefix(g, k2)),
            pow10(18),
        ),
{
    if k1 > 0 {
        let g1 = (k1 - g.len()) as nat;
        let g2 = (k2 - g.len()) as nat;
        lemma_digits_value_bound(g);
        lemma_digits_zeros(g, g1 as int);
        lemma_digits_zeros(g, g2 as int);
        lemma_pow10_monotone(19, g1);
        lemma_pow10_monotone(19, g2);
        lemma_pow10_19();
        lemma_pow10_18();
        assert(padded_prefix(g, k1) == g + zeros(g1 as int));
        assert(padded_prefix(g, k2) == g + zeros(g2 as int));
        let d = digits_value(g);
        if d > 0 {
            assert(d * pow10(g1) >= pow10(g1)) by (nonlinear_arith)
                requires
                    d >= 1,
                    pow10(g1) >= 0,
            ;
            assert(d * pow10(g2) >= pow10(g2)) by (nonlinear_arith)
                requires
                    d >= 1,
                    pow10(g2) >= 0,
            ;
        } else {
            assert(d * pow10(g1) == 0) by (nonlinear_arith)
                requires
                    d == 0,
            ;
            assert(d * pow10(g2) == 0) by (nonlinear_arith)
                requires
                    d == 0,
            ;
        }
    }
}

/// Whether every byte of `f[lo..hi]` is a decimal digit.
fn all_digits_in(f: &[u8], lo: usize, hi: usize) -> (r: bool)
    requires
        lo <= hi <= f@.len(),
    ensures
        r == all_digits(f@.subrange(lo as int, hi as int)),
{
    let mut j: usize = lo;
    while j < hi
        invariant
            lo <= j <= hi <= f@.len(),
            forall|k: int| lo <= k < j ==> is_digit(f@[k]),
        decreases hi - j,
    {
        if f[j] < 48 || f[j] > 57 {
            assert(f@.subrange(lo as int, hi as int)[j - lo] == f@[j as int]);
            return false;
        }
        j = j + 1;
    }
    assert forall|i: int| 0 <= i < f@.subrange(lo as int, hi as int).len() implies is_digit(
        #[trigger] f@.subrange(lo as int, hi as int)[i],
    ) by {
        assert(f@.subrange(lo as int, hi as int)[i] == f@[lo + i]);
    }
    true
}

/// Appends the digits `f[lo..hi]` to a number whose digits are `pre` and
/// which, capped at `c`, is `acc`; returns the longer number capped at `c`.
fn append_capped(f: &[u8], lo: usize, hi: usize, acc: u128, c: u128, Ghost(pre): Ghost<Seq<u8>>) -> (r:
    u128)
    requires
        lo <= hi <= f@.len(),
        all_digits(pre),
        all_digits(f@.subrange(lo as int, hi as int)),
        c <= 0x1_0000_0000_0000_0000_0000_0000,
        acc == capped(digits_value(pre), c as int),
    ensures
        r == capped(digits_value(pre + f@.subrange(lo as int, hi as int)), c as int),
        r <= c,
{
    let mut v: u128 = acc;
    let mut j: usize = lo;
    proof {
        assert(pre + f@.subrange(lo as int, lo as int) =~= pre);
        lemma_digits_value_bound(pre);
    }
    while j < hi
        invariant
            lo <= j <= hi <= f@.len(),
            all_digits(pre),
            all_digits(f@.subrange(lo as int, hi as int)),
            c <= 0x1_0000_0000_0000_0000_0000_0000,
            v <= c,
            v == capped(digits_value(pre + f@.subrange(lo as int, j as int)), c as int),
        decreases hi - j,
    {
        let ghost cur = pre + f@.subrange(lo as int, j as int);
        let ghost next = pre + f@.subrange(lo as int, j + 1);
        let d = f[j];
        proof {
            assert(f@.subrange(lo as int, hi as int)[j - lo] == d);
            assert(next.drop_last() =~= cur);
            assert(next.last() == d);
            assert forall|q: int| 0 <= q < cur.len() implies is_digit(#[trigger] cur[q]) by {
                if q >= pre.len() {
                    assert(cur[q] == f@.subrange(lo as int, hi as int)[q - pre.len()]);
                }
            }
            lemma_digits_value_bound(cur);
            lemma_capped_step(digits_value(cur), (d - 48) as int, c as int);
        }
        let w: u128 = v * 10 + (d - 48) as u128;
        v = if w < c {
            w
        } else {
            c
        };
        j = j + 1;
    }
    v
}

/// Bound on the mantissa of a sample, `10^MAX_DIGITS`.
const CAP: u128 = 1_000_000_000_000_000_000;

/// Exponents are read up to this magnitude: any further moves the point
/// past every digit a slice can hold.
const EXP_CAP: u128 = 0x2_0000_0000_0000_0000;

/// The first `k` digits of `g` (zero-padded past its end), read as a number
/// capped at `10^MAX_DIGITS`; `g` is `f[start..start+ip_len]` followed by
/// `f[fp_lo..fp_lo+glen-ip_len]`.
fn capped_units(
    f: &[u8],
    start: usize,
    ip_len: usize,
    fp_lo: usize,
    glen: usize,
    k: i128,
    Ghost(g): Ghost<Seq<u8>>,
) -> (r: u128)
    requires
        ip_len <= glen,
        start + ip_len <= f@.len(),
        fp_lo + (glen - ip_len) <= f@.len(),
        g == f@.subrange(start as int, start + ip_len) + f@.subrange(
            fp_lo as int,
            fp_lo + (glen - ip_len),
        ),
        all_digits(g),
    ensures
        r == capped(digits_value(padded_prefix(g, k as int)), pow10(18)),
{
    proof {
        lemma_pow10_18();
    }
    let _len = f.len();
    let ghost ipq = f@.subrange(start as int, start + ip_len);
    let take: usize = if k <= 0 {
        0
    } else if k <= glen as i128 {
        k as usize
    } else {
        glen
    };
    let r1: u128;
    if take <= ip_len {
        assert(all_digits(f@.subrange(start as int, start + take))) by {
            assert forall|q: int| 0 <= q < take implies is_digit(
                #[trigger] f@.subrange(start as int, start + take)[q],
            ) by {
                assert(f@.subrange(start as int, start + take)[q] == g[q]);
            }
        }
        r1 = append_capped(f, start, start + take, 0, CAP, Ghost(Seq::empty()));
        assert(Seq::<u8>::empty() + f@.subrange(start as int, start + take) =~= g.take(take as int));
    } else {
        assert(all_digits(ipq)) by {
            assert forall|q: int| 0 <= q < ip_len implies is_digit(#[trigger] ipq[q]) by {
                assert(ipq[q] == g[q]);
            }
        }
        assert(all_digits(f@.subrange(start as int, start + ip_len))) by {
            assert(ipq =~= f@.subrange(start as int, start + ip_len));
        }
        let a = append_capped(f, start, start + ip_len, 0, CAP, Ghost(Seq::empty()));
        assert(Seq::<u8>::empty() + ipq =~= ipq);
        let hi = fp_lo + (take - ip_len);
        assert(all_digits(f@.subrange(fp_lo as int, hi as int))) by {
            assert forall|q: int| 0 <= q < hi - fp_lo implies is_digit(
                #[trigger] f@.subrange(fp_lo as int, hi as int)[q],
            ) by {
                assert(f@.subrange(fp_lo as int, hi as int)[q] == g[ip_len + q]);
            }
        }
        r1 = append_capped(f, fp_lo, hi, a, CAP, Ghost(ipq));
        assert(ipq + f@.subrange(fp_lo as int, hi as int) =~= g.take(take as int));
    }
    if k <= glen as i128 {
        assert(k <= 0 ==> g.take(0) =~= Seq::<u8>::empty());
        return r1;
    }
    assert(g.take(glen as int) =~= g);
    let total: i128 = k - glen as i128;
    let mut m: i128 = total;
    let mut v: u128 = r1;
    proof {
        lemma_digits_value_bound(g);
        assert(g + zeros(0) =~= g);
    }
    while m > 0 && v > 0 && v < CAP
        invariant
            0 <= m <= total,
            all_digits(g),
            v <= CAP,
            v == capped(digits_value(g + zeros(total - m)), pow10(18)),
            pow10(18) == CAP,
        decreases m,
    {
        let ghost j = total - m;
        proof {
            assert((g + zeros(j + 1)).drop_last() =~= g + zeros(j));
            assert((g + zeros(j + 1)).last() == 48);
            lemma_digits_zeros(g, j);
            lemma_digits_value_bound(g);
            lemma_pow10_positive(j as nat);
            assert(digits_value(g) * pow10(j as nat) >= 0) by (nonlinear_arith)
                requires
                    digits_value(g) >= 0,
                    pow10(j as nat) >= 1,
            ;
            lemma_capped_step(digits_value(g + zeros(j)), 0, pow10(18));
        }
        v = if v * 10 < CAP {
            v * 10
        } else {
            CAP
        };
        m = m - 1;
    }
    proof {
        let j = total - m;
        lemma_digits_zeros(g, j);
        lemma_digits_zeros(g, total as int);
        lemma_digits_value_bound(g);
        lemma_pow10_monotone(j as nat, total as nat);
        lemma_pow10_positive(j as nat);
        let d = digits_value(g);
        if m > 0 && v == 0 {
            assert(d == 0) by (nonlinear_arith)
                requires
                    d * pow10(j as nat) == 0,
                    pow10(j as nat) >= 1,
                    d >= 0,
            ;
        }
        if m > 0 && v == CAP {
            assert(d * pow10(total as nat) >= d * pow10(j as nat)) by (nonlinear_arith)
                requires
                    pow10(total as nat) >= pow10(j as nat),
                    d >= 0,
            ;
        }
        if m > 0 && v == 0 {
            assert(d * pow10(total as nat) == 0) by (nonlinear_arith)
                requires
                    d == 0,
            ;
        }
        assert(padded_prefix(g, k as int) == g + zeros(total as int));
    }
    v
}

fn lower_byte(c: u8) -> (r: u8)
    ensures
        r == lower(c),
{
    if 65 <= c && c <= 90 {
        c + 32
    } else {
        c
    }
}

/// Whether `f[lo..hi]` spells the lower-case word `w`, letters in any case.
fn spells(f: &[u8], lo: usize, hi: usize, w: &Vec<u8>) -> (r: bool)
    requires
        lo <= hi <= f@.len(),
    ensures
        r == is_word(f@.subrange(lo as int, hi as int), w@),
{
    if hi - lo != w.len() {
        return false;
    }
    let mut j: usize = 0;
    while j < w.len()
        invariant
            lo <= hi <= f@.len(),
            hi - lo == w@.len(),
            j <= w@.len(),
            forall|q: int| 0 <= q < j ==> lower(f@[lo + q]) == w@[q],
        decreases w@.len() - j,
    {
        if lower_byte(f[lo + j]) != w[j] {
            assert(lower(f@.subrange(lo as int, hi as int)[j as int]) != w@[j as int]);
            return false;
        }
        j = j + 1;
    }
    assert forall|q: int| 0 <= q < hi - lo implies lower(
        #[trigger] f@.subrange(lo as int, hi as int)[q],
    ) == w@[q] by {
        assert(f@.subrange(lo as int, hi as int)[q] == f@[lo + q]);
    }
    true
}

/// Reads a field of the source text as a sample: leading spaces are
/// skipped, then a decimal floating-point number, an infinity or a
/// not-a-number is read as `field_value` says.
#[verifier::rlimit(100)]
pub fn parse_field(f: &[u8]) -> (r: Option<Decimal>)
    ensures
        r == field_value(f@),
        r matches Some(d) ==> d.wf(),
{
    proof {
        lemma_pow10_18();
    }
    let n = f.len();
    let mut i: usize = 0;
    while i < n && f[i] == 32
        invariant
            i <= n == f@.len(),
            forall|k: int| 0 <= k < i ==> f@[k] == 32,
        decreases n - i,
    {
        i = i + 1;
    }
    let ghost t = f@.subrange(i as int, n as int);
    proof {
        lemma_trim_at(f@, i as int);
    }
    let neg = i < n && f[i] == 45;
    let start: usize = if i < n && (f[i] == 45 || f[i] == 43) {
        i + 1
    } else {
        i
    };
    let ghost u = f@.subrange(start as int, n as int);
    assert(u =~= unsigned_part(t));
    assert(neg == is_negative(t));
    let largest_mant: i64 = 999_999_999_999_999_999;
    let w_inf: Vec<u8> = vec![105u8, 110, 102];
    let w_infinity: Vec<u8> = vec![105u8, 110, 102, 105, 110, 105, 116, 121];
    let w_nan: Vec<u8> = vec![110u8, 97, 110];
    assert(w_inf@ =~= seq![105u8, 110, 102]);
    assert(w_infinity@ =~= seq![105u8, 110, 102, 105, 110, 105, 116, 121]);
    assert(w_nan@ =~= seq![110u8, 97, 110]);
    if spells(f, start, n, &w_inf) || spells(f, start, n, &w_infinity) {
        return Some(
            Decimal {
                mant: if neg {
                    -largest_mant
                } else {
                    largest_mant
                },
                exp: 0,
            },
        );
    }
    if spells(f, start, n, &w_nan) {
        return Some(Decimal { mant: 0, exp: 0 });
    }
    read_number(f, i, start)
}

/// The exponent of unsigned number `u`, which is `f[..]` from some point
/// on and whose exponent mark, if any, stands at `q`: `None` where no
/// signed integer follows the mark; otherwise its value, or a value of the
/// same sign and magnitude `EXP_CAP` where it is at least that large.
fn read_exponent(f: &[u8], q: usize, Ghost(u): Ghost<Seq<u8>>) -> (r: Option<i128>)
    requires
        q <= f@.len(),
        u.len() <= f@.len(),
        q >= f@.len() - u.len(),
        exp_index(u) == q - (f@.len() - u.len()),
        u == f@.subrange(f@.len() - u.len(), f@.len() as int),
    ensures
        r is None <==> (has_exponent(u) && !(unsigned_part(exponent_text(u)).len() >= 1
            && all_digits(unsigned_part(exponent_text(u))))),
        r matches Some(v) ==> -EXP_CAP <= v <= EXP_CAP,
        r matches Some(v) ==> (v == exponent_value(u) || (v == EXP_CAP && exponent_value(u)
            >= EXP_CAP) || (v == -EXP_CAP && exponent_value(u) <= -EXP_CAP)),
{
    let n = f.len();
    let ghost x = exponent_text(u);
    if q < n {
        assert(x =~= f@.subrange(q + 1, n as int));
        let eneg = q + 1 < n && f[q + 1] == 45;
        let xd: usize = if q + 1 < n && (f[q + 1] == 45 || f[q + 1] == 43) {
            q + 2
        } else {
            q + 1
        };
        assert(unsigned_part(x) =~= f@.subrange(xd as int, n as int));
        assert(eneg == is_negative(x));
        if xd >= n || !all_digits_in(f, xd, n) {
            return None;
        }
        let ev = append_capped(f, xd, n, 0, EXP_CAP, Ghost(Seq::empty()));
        assert(Seq::<u8>::empty() + f@.subrange(xd as int, n as int) =~= f@.subrange(
            xd as int,
            n as int,
        ));
        proof {
            lemma_digits_value_bound(unsigned_part(x));
        }
        Some(
            if eneg {
                -(ev as i128)
            } else {
                ev as i128
            },
        )
    } else {
        assert(x =~= Seq::<u8>::empty());
        assert(unsigned_part(x) =~= Seq::<u8>::empty());
        Some(0)
    }
}

/// Reads `f[i..]`, which spells no infinity and no not-a-number, as a
/// number whose digits start at `start`.
#[verifier::rlimit(100)]
fn read_number(f: &[u8], i: usize, start: usize) -> (r: Option<Decimal>)
    requires
        i <= start <= f@.len(),
        start == i || start == i + 1,
        f@.subrange(start as int, f@.len() as int) == unsigned_part(f@.subrange(i as int, f@.len() as int)),
        !is_infinity(unsigned_part(f@.subrange(i as int, f@.len() as int))),
        !is_nan(unsigned_part(f@.subrange(i as int, f@.len() as int))),
    ensures
        is_number(f@.subrange(i as int, f@.len() as int)) ==> r == Some(number_value(f@.subrange(i as int, f@.len() as int))),
        !is_number(f@.subrange(i as int, f@.len() as int)) ==> r is None,
        r matches Some(d) ==> d.wf(),
{
    proof {
        lemma_pow10_18();
    }
    let n = f.len();
    let ghost t = f@.subrange(i as int, n as int);
    let ghost u = f@.subrange(start as int, n as int);
    let neg = i < n && f[i] == 45;
    assert(neg == is_negative(t));
    let mut q: usize = start;
    while q < n && f[q] != 101 && f[q] != 69
        invariant
            start <= q <= n == f@.len(),
            forall|j: int| start <= j < q ==> f@[j] != 101 && f@[j] != 69,
        decreases n - q,
    {
        q = q + 1;
    }
    proof {
        lemma_exp_at(u, q - start);
    }
    let ghost m = f@.subrange(start as int, q as int);
    assert(m =~= significand(u));
    let mut d: usize = start;
    while d < q && f[d] != 46
        invariant
            start <= d <= q <= n == f@.len(),
            forall|j: int| start <= j < d ==> f@[j] != 46,
        decreases q - d,
    {
        d = d + 1;
    }
    proof {
        lemma_dot_at(m, d - start);
    }
    let fp_lo: usize = if d < q {
        d + 1
    } else {
        q
    };
    let ghost ip = f@.subrange(start as int, d as int);
    let ghost fp = f@.subrange(fp_lo as int, q as int);
    assert(integer_part(m) =~= ip);
    assert(fraction_part(m) =~= fp);
    let ip_len: usize = d - start;
    let fp_len: usize = q - fp_lo;
    if ip_len + fp_len == 0 || !all_digits_in(f, start, d) || !all_digits_in(f, fp_lo, q) {
        return None;
    }
    let e_opt = read_exponent(f, q, Ghost(u));
    let e_val: i128 = match e_opt {
        None => {
            return None;
        },
        Some(v) => v,
    };
    assert(is_number(t));
    let ghost g = ip + fp;
    assert(g == digits_of(t));
    let ghost big_p = point_of(t);
    let glen: usize = ip_len + fp_len;
    let pc: i128 = ip_len as i128 + e_val;
    let f_raw: i128 = glen as i128 - pc;
    let e0: i128 = if f_raw < 0 {
        0
    } else if f_raw > 9 {
        9
    } else {
        f_raw
    };
    assert(e0 == fraction_len(t));
    proof {
        assert(all_digits(g)) by {
            assert forall|k: int| 0 <= k < g.len() implies is_digit(#[trigger] g[k]) by {
                if k < ip.len() {
                    assert(g[k] == ip[k]);
                } else {
                    assert(g[k] == fp[k - ip.len()]);
                }
            }
        }
        assert forall|e: int| 0 <= e <= 9 implies #[trigger] capped(units(t, e), pow10(18))
            == capped(digits_value(padded_prefix(g, pc + e)), pow10(18)) by {
            if pc != big_p {
                lemma_far_point(g, big_p + e, pc + e);
            }
        }
    }
    fit_units(f, start, ip_len, fp_lo, glen, pc, e_val, e0, neg, Ghost(t), Ghost(g), Ghost(ip), Ghost(fp))
}

/// The sample that number `t` loads as, trying `e0` fraction digits first
/// and fewer while the mantissa does not fit.
fn fit_units(
    f: &[u8],
    start: usize,
    ip_len: usize,
    fp_lo: usize,
    glen: usize,
    pc: i128,
    e_val: i128,
    e0: i128,
    neg: bool,
    Ghost(t): Ghost<Seq<u8>>,
    Ghost(g): Ghost<Seq<u8>>,
    Ghost(ip): Ghost<Seq<u8>>,
    Ghost(fp): Ghost<Seq<u8>>,
) -> (r: Option<Decimal>)
    requires
        0 <= e0 <= 9,
        e0 == fraction_len(t),
        all_digits(g),
        g == ip + fp,
        ip == f@.subrange(start as int, start + ip_len),
        fp == f@.subrange(fp_lo as int, fp_lo + (glen - ip_len)),
        ip_len <= glen,
        start + ip_len <= f@.len(),
        fp_lo + (glen - ip_len) <= f@.len(),
        pc == ip_len as i128 + e_val,
        -EXP_CAP <= e_val <= EXP_CAP,
        neg == is_negative(t),
        forall|e2: int| 0 <= e2 <= 9 ==> #[trigger] capped(units(t, e2), pow10(18))
            == capped(digits_value(padded_prefix(g, pc + e2)), pow10(18)),
    ensures
        r == Some(number_value(t)),
        r matches Some(d) ==> d.wf(),
{
    proof {
        lemma_pow10_18();
    }
    let largest_mant: i64 = 999_999_999_999_999_999;
    let mut e: i128 = e0;
    loop
        invariant
            0 <= e <= e0 <= 9,
            e0 == fraction_len(t),
            fit_exp(t, e0 as int) == fit_exp(t, e as int),
            all_digits(g),
            g == ip + fp,
            ip == f@.subrange(start as int, start + ip_len),
            fp == f@.subrange(fp_lo as int, fp_lo + (glen - ip_len)),
            ip_len <= glen,
            start + ip_len <= f@.len(),
            fp_lo + (glen - ip_len) <= f@.len(),
            pc == ip_len as i128 + e_val,
            -EXP_CAP <= e_val <= EXP_CAP,
            neg == is_negative(t),
            largest_mant == 999_999_999_999_999_999,
            forall|e2: int| 0 <= e2 <= 9 ==> #[trigger] capped(units(t, e2), pow10(18))
                == capped(digits_value(padded_prefix(g, pc + e2)), pow10(18)),
            pow10(18) == CAP,
        decreases e,
    {
        let r = capped_units(f, start, ip_len, fp_lo, glen, pc + e, Ghost(g));
        proof {
            assert(r == capped(units(t, e as int), pow10(18)));
        }
        if r < CAP {
            let mant = r as i64;
            return Some(
                Decimal {
                    mant: if neg {
                        -mant
                    } else {
                        mant
                    },
                    exp: e as u32,
                },
            );
        }
        if e == 0 {
            return Some(
                Decimal {
                    mant: if neg {
                        -largest_mant
                    } else {
                        largest_mant
                    },
                    exp: 0,
                },
            );
        }
        e = e - 1;
    }
}

} // verus!
