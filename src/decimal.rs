//! Decimal numbers in standard or scientific notation, held as signed
//! counts of nano-units (one unit is 1_000_000_000 nano-units).
use vstd::prelude::*;
use vstd::arithmetic::div_mod::lemma_fundamental_div_mod_converse;
use vstd::string::StrSliceExecFns;

verus! {

/// Nano-units per unit.
pub const NANOS: i64 = 1_000_000_000;

/// Magnitudes, in nano-units, must stay below this bound (10^9 units).
pub const LIMIT_NANOS: u64 = 1_000_000_000_000_000_000;

/// Exponents are read up to this magnitude (2^65); any larger one gives
/// the same number as this one for every text that fits in memory.
pub const EXP_CAP: u128 = 36_893_488_147_419_103_232;

pub open spec fn is_digit(c: char) -> bool {
    '0' <= c && c <= '9'
}

pub open spec fn digit_val(c: char) -> int {
    c as int - '0' as int
}

pub open spec fn all_digits(s: Seq<char>) -> bool {
    forall|i: int| 0 <= i < s.len() ==> is_digit(#[trigger] s[i])
}

/// The number written by the first `n` digits of `s`.
pub open spec fn int_prefix(s: Seq<char>, n: nat) -> int
    decreases n,
{
    if n == 0 {
        0
    } else {
        int_prefix(s, (n - 1) as nat) * 10 + digit_val(s[n - 1])
    }
}

/// The number written by the digits of `s`.
pub open spec fn digits_value(s: Seq<char>) -> int {
    int_prefix(s, s.len())
}

pub open spec fn pow10(n: nat) -> int
    decreases n,
{
    if n == 0 {
        1
    } else {
        10 * pow10((n - 1) as nat)
    }
}

/// `d · 10^k`, rounded toward zero.
pub open spec fn scaled(d: int, k: int) -> int {
    if k >= 0 {
        d * pow10(k as nat)
    } else {
        d / pow10((-k) as nat)
    }
}

/// Index of the first '.' at or after `i`, or the length when there is none.
pub open spec fn first_dot(s: Seq<char>, i: int) -> int
    decreases s.len() - i,
{
    if i >= s.len() {
        s.len() as int
    } else if s[i] == '.' {
        i
    } else {
        first_dot(s, i + 1)
    }
}

/// Index of the first 'e' or 'E' at or after `i`, or the length when there
/// is none.
pub open spec fn first_exp(s: Seq<char>, i: int) -> int
    decreases s.len() - i,
{
    if i >= s.len() {
        s.len() as int
    } else if s[i] == 'e' || s[i] == 'E' {
        i
    } else {
        first_exp(s, i + 1)
    }
}

pub open spec fn sign_len(s: Seq<char>) -> int {
    if s.len() > 0 && (s[0] == '-' || s[0] == '+') {
        1
    } else {
        0
    }
}

/// The digits and point between the sign and the exponent mark.
pub open spec fn mantissa(s: Seq<char>) -> Seq<char> {
    s.subrange(sign_len(s), first_exp(s, sign_len(s)))
}

pub open spec fn has_exponent(s: Seq<char>) -> bool {
    first_exp(s, sign_len(s)) < s.len()
}

/// What follows the exponent mark.
pub open spec fn exponent_text(s: Seq<char>) -> Seq<char> {
    s.subrange(first_exp(s, sign_len(s)) + 1, s.len() as int)
}

pub open spec fn whole_part(m: Seq<char>) -> Seq<char> {
    m.subrange(0, first_dot(m, 0))
}

pub open spec fn frac_part(m: Seq<char>) -> Seq<char> {
    let d = first_dot(m, 0);
    if d < m.len() {
        m.subrange(d + 1, m.len() as int)
    } else {
        Seq::empty()
    }
}

pub open spec fn exponent_digits(x: Seq<char>) -> Seq<char> {
    x.subrange(sign_len(x), x.len() as int)
}

pub open spec fn exponent_value(x: Seq<char>) -> int {
    if x.len() > 0 && x[0] == '-' {
        -digits_value(exponent_digits(x))
    } else {
        digits_value(exponent_digits(x))
    }
}

/// The value of `[+|-] digits [. digits] [(e|E) [+|-] digits]` (at least
/// one mantissa digit, at least one exponent digit after a mark) in
/// nano-units, rounded toward zero; `None` for any other text and for
/// magnitudes of `LIMIT_NANOS` or more.
pub open spec fn decimal_nanos(s: Seq<char>) -> Option<int> {
    let m = mantissa(s);
    let w = whole_part(m);
    let f = frac_part(m);
    let x = exponent_text(s);
    let e = if has_exponent(s) {
        exponent_value(x)
    } else {
        0
    };
    if all_digits(w) && all_digits(f) && w.len() + f.len() > 0 && (!has_exponent(s) || (
    all_digits(exponent_digits(x)) && exponent_digits(x).len() > 0)) {
        let mag = scaled(digits_value(w + f), 9 + e - f.len());
        if mag < LIMIT_NANOS {
            Some(
                if s.len() > 0 && s[0] == '-' {
                    -mag
                } else {
                    mag
                },
            )
        } else {
            None
        }
    } else {
        None
    }
}

proof fn lemma_pow10_pos(n: nat)
    ensures
        pow10(n) >= 1,
    decreases n,
{
    if n > 0 {
        lemma_pow10_pos((n - 1) as nat);
    }
}

proof fn lemma_pow10_mono(a: nat, b: nat)
    requires
        a <= b,
    ensures
        pow10(a) <= pow10(b),
    decreases b,
{
    if a < b {
        lemma_pow10_mono(a, (b - 1) as nat);
        lemma_pow10_pos((b - 1) as nat);
    }
}

proof fn lemma_pow10_eighteen()
    ensures
        pow10(18) == LIMIT_NANOS,
{
    reveal_with_fuel(pow10, 19);
}

proof fn lemma_int_prefix_mono(s: Seq<char>, n: nat, m: nat)
    requires
        n <= m <= s.len(),
        all_digits(s),
    ensures
        0 <= int_prefix(s, n) <= int_prefix(s, m),
    decreases m,
{
    if n < m {
        lemma_int_prefix_mono(s, n, (m - 1) as nat);
        assert(is_digit(s[m - 1]));
    } else if n > 0 {
        lemma_int_prefix_mono(s, (n - 1) as nat, (n - 1) as nat);
        assert(is_digit(s[n - 1]));
    }
}

/// The first `n` digits split into the first `m` and a tail below
/// `10^(n-m)`.
proof fn lemma_prefix_split(s: Seq<char>, m: nat, n: nat) -> (tail: int)
    requires
        m <= n <= s.len(),
        all_digits(s),
    ensures
        0 <= tail < pow10((n - m) as nat),
        int_prefix(s, n) == int_prefix(s, m) * pow10((n - m) as nat) + tail,
    decreases n,
{
    if n == m {
        assert(int_prefix(s, n) == int_prefix(s, m) * pow10(0) + 0);
        0
    } else {
        let t = lemma_prefix_split(s, m, (n - 1) as nat);
        let p = pow10((n - 1 - m) as nat);
        let q = int_prefix(s, m);
        let dv = digit_val(s[n - 1]);
        assert(is_digit(s[n - 1]));
        assert(pow10((n - m) as nat) == 10 * p);
        assert(int_prefix(s, n) == q * (10 * p) + (t * 10 + dv) && 0 <= t * 10 + dv < 10 * p)
            by (nonlinear_arith)
            requires
                int_prefix(s, n) == (q * p + t) * 10 + dv,
                0 <= t < p,
                0 <= dv <= 9,
        ;
        t * 10 + dv
    }
}

/// Dropping the last `j` of `n` digits divides by `10^j`.
proof fn lemma_prefix_div(s: Seq<char>, n: nat, j: nat)
    requires
        j <= n <= s.len(),
        all_digits(s),
    ensures
        int_prefix(s, n) / pow10(j) == int_prefix(s, (n - j) as nat),
{
    let t = lemma_prefix_split(s, (n - j) as nat, n);
    lemma_fundamental_div_mod_converse(int_prefix(s, n), pow10(j), int_prefix(s, (n - j) as nat), t);
}

/// `n` digits write a number below `10^n`.
proof fn lemma_prefix_below(s: Seq<char>, n: nat)
    requires
        n <= s.len(),
        all_digits(s),
    ensures
        0 <= int_prefix(s, n) < pow10(n),
{
    let t = lemma_prefix_split(s, 0, n);
    assert(int_prefix(s, 0) * pow10(n) == 0);
}

/// Past the bounds below, a larger exponent changes nothing: every
/// nonzero value is out of range, or every value rounds to zero.
proof fn lemma_scaled_saturates(d: int, n: nat, k1: int, k2: int)
    requires
        0 <= d < pow10(n),
        (k1 >= 18 && k2 >= 18) || (-k1 >= n && -k2 >= n),
    ensures
        (scaled(d, k1) < LIMIT_NANOS) == (scaled(d, k2) < LIMIT_NANOS),
        scaled(d, k1) < LIMIT_NANOS ==> scaled(d, k1) == scaled(d, k2),
{
    if k1 >= 18 {
        lemma_pow10_eighteen();
        lemma_pow10_mono(18, k1 as nat);
        lemma_pow10_mono(18, k2 as nat);
        let p1 = pow10(k1 as nat);
        let p2 = pow10(k2 as nat);
        if d >= 1 {
            assert(d * p1 >= p1 && d * p2 >= p2) by (nonlinear_arith)
                requires
                    d >= 1,
                    p1 >= 1,
                    p2 >= 1,
            ;
        } else {
            assert(d == 0);
            assert(d * p1 == 0 && d * p2 == 0) by (nonlinear_arith)
                requires
                    d == 0,
            ;
        }
        assert(scaled(d, k1) == d * p1);
        assert(scaled(d, k2) == d * p2);
    } else {
        lemma_pow10_mono(n, (-k1) as nat);
        lemma_pow10_mono(n, (-k2) as nat);
        lemma_fundamental_div_mod_converse(d, pow10((-k1) as nat), 0, d);
        lemma_fundamental_div_mod_converse(d, pow10((-k2) as nat), 0, d);
        assert(scaled(d, k1) == 0);
        assert(scaled(d, k2) == 0);
    }
}

fn char_digit(c: char) -> (r: u64)
    requires
        is_digit(c),
    ensures
        r == digit_val(c),
        r <= 9,
{
    (c as u32 - '0' as u32) as u64
}

fn is_digit_char(c: char) -> (r: bool)
    ensures
        r == is_digit(c),
{
    '0' <= c && c <= '9'
}

fn to_chars(s: &str) -> (r: Vec<char>)
    ensures
        r@ == s@,
{
    let n = s.unicode_len();
    let mut out: Vec<char> = Vec::new();
    let mut i: usize = 0;
    while i < n
        invariant
            i <= n,
            n == s@.len(),
            out@ == s@.subrange(0, i as int),
        decreases n - i,
    {
        out.push(s.get_char(i));
        i = i + 1;
        assert(out@ =~= s@.subrange(0, i as int));
    }
    assert(out@ =~= s@);
    out
}

fn copy_range(v: &Vec<char>, a: usize, b: usize) -> (r: Vec<char>)
    requires
        a <= b <= v@.len(),
    ensures
        r@ == v@.subrange(a as int, b as int),
{
    let mut out: Vec<char> = Vec::new();
    let mut i: usize = a;
    while i < b
        invariant
            a <= i <= b <= v@.len(),
            out@ == v@.subrange(a as int, i as int),
        decreases b - i,
    {
        out.push(v[i]);
        i = i + 1;
        assert(out@ =~= v@.subrange(a as int, i as int));
    }
    out
}

fn join(a: &Vec<char>, b: &Vec<char>) -> (r: Vec<char>)
    ensures
        r@ == a@ + b@,
{
    let mut out = copy_range(a, 0, a.len());
    let mut i: usize = 0;
    while i < b.len()
        invariant
            i <= b@.len(),
            out@ == a@ + b@.subrange(0, i as int),
        decreases b.len() - i,
    {
        out.push(b[i]);
        i = i + 1;
        assert(out@ =~= a@ + b@.subrange(0, i as int));
    }
    assert(b@.subrange(0, b@.len() as int) =~= b@);
    out
}

fn find_dot(v: &Vec<char>) -> (r: usize)
    ensures
        r == first_dot(v@, 0),
        r <= v@.len(),
{
    let mut d: usize = 0;
    while d < v.len() && v[d] != '.'
        invariant
            d <= v@.len(),
            first_dot(v@, 0) == first_dot(v@, d as int),
        decreases v.len() - d,
    {
        d = d + 1;
    }
    d
}

fn find_exp(v: &Vec<char>, start: usize) -> (r: usize)
    requires
        start <= v@.len(),
    ensures
        r == first_exp(v@, start as int),
        start <= r <= v@.len(),
{
    let mut d: usize = start;
    while d < v.len() && v[d] != 'e' && v[d] != 'E'
        invariant
            start <= d <= v@.len(),
            first_exp(v@, start as int) == first_exp(v@, d as int),
        decreases v.len() - d,
    {
        d = d + 1;
    }
    d
}

fn only_digits(v: &Vec<char>) -> (r: bool)
    ensures
        r == all_digits(v@),
{
    let mut i: usize = 0;
    while i < v.len()
        invariant
            i <= v@.len(),
            forall|j: int| 0 <= j < i ==> is_digit(#[trigger] v@[j]),
        decreases v.len() - i,
    {
        if !is_digit_char(v[i]) {
            return false;
        }
        i = i + 1;
    }
    true
}

/// The number that the digits `v` write, or `EXP_CAP` where it is larger.
fn read_capped(v: &Vec<char>) -> (r: u128)
    requires
        all_digits(v@),
    ensures
        digits_value(v@) < EXP_CAP ==> r == digits_value(v@),
        digits_value(v@) >= EXP_CAP ==> r == EXP_CAP,
{
    let mut acc: u128 = 0;
    let mut i: usize = 0;
    while i < v.len()
        invariant
            i <= v@.len(),
            all_digits(v@),
            acc == int_prefix(v@, i as nat),
            acc < EXP_CAP,
        decreases v.len() - i,
    {
        let d = char_digit(v[i]) as u128;
        let next = acc * 10 + d;
        if next >= EXP_CAP {
            proof {
                lemma_int_prefix_mono(v@, (i + 1) as nat, v@.len());
            }
            return EXP_CAP;
        }
        acc = next;
        i = i + 1;
    }
    acc
}

/// The number that the first `m` digits of `g` write, or `None` where it
/// reaches `LIMIT_NANOS`.
fn prefix_below_limit(g: &Vec<char>, m: usize) -> (r: Option<u64>)
    requires
        m <= g@.len(),
        all_digits(g@),
    ensures
        match r {
            Some(v) => v == int_prefix(g@, m as nat) && v < LIMIT_NANOS,
            None => int_prefix(g@, m as nat) >= LIMIT_NANOS,
        },
{
    let mut acc: u64 = 0;
    let mut i: usize = 0;
    while i < m
        invariant
            i <= m <= g@.len(),
            all_digits(g@),
            acc == int_prefix(g@, i as nat),
            acc < LIMIT_NANOS,
        decreases m - i,
    {
        let d = char_digit(g[i]);
        let next = acc * 10 + d;
        if next >= LIMIT_NANOS {
            proof {
                lemma_int_prefix_mono(g@, (i + 1) as nat, m as nat);
            }
            return None;
        }
        acc = next;
        i = i + 1;
    }
    Some(acc)
}

/// `scaled(digits_value(g), k)`, or `None` where it reaches `LIMIT_NANOS`.
fn scale_digits(g: &Vec<char>, k: i128) -> (r: Option<u64>)
    requires
        all_digits(g@),
        -0x10_0000_0000_0000_0000_0000 <= k <= 0x10_0000_0000_0000_0000_0000,
    ensures
        match r {
            Some(v) => v == scaled(digits_value(g@), k as int) && v < LIMIT_NANOS,
            None => scaled(digits_value(g@), k as int) >= LIMIT_NANOS,
        },
{
    let n = g.len();
    if k >= 0 {
        let mut acc = match prefix_below_limit(g, n) {
            Some(v) => v,
            None => {
                proof {
                    lemma_pow10_pos(k as nat);
                    let d = digits_value(g@);
                    assert(d * pow10(k as nat) >= d) by (nonlinear_arith)
                        requires
                            d >= 0,
                            pow10(k as nat) >= 1,
                    ;
                }
                return None;
            },
        };
        let ghost d = digits_value(g@);
        let mut j: i128 = 0;
        while j < k
            invariant
                0 <= j <= k,
                d >= 0,
                d == digits_value(g@),
                acc == d * pow10(j as nat),
                acc < LIMIT_NANOS,
            decreases k - j,
        {
            if acc == 0 {
                proof {
                    lemma_pow10_pos(j as nat);
                    let pj = pow10(j as nat);
                    assert(d == 0) by (nonlinear_arith)
                        requires
                            d * pj == 0,
                            pj >= 1,
                    ;
                }
                assert(d * pow10(k as nat) == 0);
                assert(scaled(d, k as int) == 0);
                return Some(0);
            }
            let next = acc as u128 * 10;
            assert(pow10((j + 1) as nat) == 10 * pow10(j as nat));
            proof {
                let pj = pow10(j as nat);
                assert(d * (10 * pj) == (d * pj) * 10) by (nonlinear_arith);
            }
            if next >= LIMIT_NANOS as u128 {
                proof {
                    lemma_pow10_mono((j + 1) as nat, k as nat);
                    let p1 = pow10((j + 1) as nat);
                    let pk = pow10(k as nat);
                    assert(d * pk >= d * p1) by (nonlinear_arith)
                        requires
                            d >= 0,
                            pk >= p1,
                    ;
                    assert(scaled(d, k as int) == d * pk);
                }
                return None;
            }
            proof {
                let pj = pow10(j as nat);
                assert(d * (10 * pj) == (d * pj) * 10) by (nonlinear_arith);
            }
            acc = next as u64;
            j = j + 1;
        }
        Some(acc)
    } else {
        let back: i128 = -k;
        proof {
            lemma_prefix_below(g@, n as nat);
        }
        if back >= n as i128 {
            proof {
                lemma_pow10_mono(n as nat, back as nat);
                lemma_fundamental_div_mod_converse(digits_value(g@), pow10(back as nat), 0, digits_value(g@));
            }
            return Some(0);
        }
        proof {
            lemma_prefix_div(g@, n as nat, back as nat);
        }
        prefix_below_limit(g, n - back as usize)
    }
}

/// Parses a decimal in standard or scientific notation into nano-units.
pub fn parse_decimal(s: &str) -> (r: Option<i64>)
    ensures
        match r {
            Some(v) => decimal_nanos(s@) == Some(v as int),
            None => decimal_nanos(s@) is None,
        },
{
    let v = to_chars(s);
    let n = v.len();
    let negative = n > 0 && v[0] == '-';
    let start: usize = if n > 0 && (v[0] == '-' || v[0] == '+') {
        1
    } else {
        0
    };
    let p = find_exp(&v, start);
    let mant = copy_range(&v, start, p);
    let d = find_dot(&mant);
    let w = copy_range(&mant, 0, d);
    let f = if d < mant.len() {
        copy_range(&mant, d + 1, mant.len())
    } else {
        Vec::new()
    };
    assert(f@ =~= frac_part(mant@));
    if !only_digits(&w) || !only_digits(&f) || w.len() + f.len() == 0 {
        return None;
    }
    let ghost x = exponent_text(s@);
    let mut e: i128 = 0;
    if p < n {
        let xt = copy_range(&v, p + 1, n);
        let xs: usize = if xt.len() > 0 && (xt[0] == '-' || xt[0] == '+') {
            1
        } else {
            0
        };
        let xd = copy_range(&xt, xs, xt.len());
        if xd.len() == 0 || !only_digits(&xd) {
            return None;
        }
        let ev = read_capped(&xd) as i128;
        e = if xt.len() > 0 && xt[0] == '-' {
            -ev
        } else {
            ev
        };
    }
    let g = join(&w, &f);
    assert forall|i: int| 0 <= i < g@.len() implies is_digit(#[trigger] g@[i]) by {
        if i >= w@.len() {
            assert(g@[i] == f@[i - w@.len()]);
        }
    }
    let k: i128 = 9 + e - f.len() as i128;
    let mag = match scale_digits(&g, k) {
        Some(m) => m,
        None => {
            proof {
                let ke = 9 + exponent_value(x) - f@.len();
                if has_exponent(s@) && digits_value(exponent_digits(x)) >= EXP_CAP {
                    lemma_prefix_below(g@, g@.len());
                    lemma_scaled_saturates(digits_value(g@), g@.len(), k as int, ke);
                }
            }
            return None;
        },
    };
    proof {
        let ke = 9 + exponent_value(x) - f@.len();
        if has_exponent(s@) && digits_value(exponent_digits(x)) >= EXP_CAP {
            lemma_prefix_below(g@, g@.len());
            lemma_scaled_saturates(digits_value(g@), g@.len(), k as int, ke);
        }
    }
    if negative {
        Some(-(mag as i64))
    } else {
        Some(mag as i64)
    }
}

} // verus!
