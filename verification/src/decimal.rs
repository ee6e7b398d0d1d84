//! Exact decimal values: exchange rates and alert thresholds are kept as an
//! integer count of `10^-12` units, so every comparison and every rendering
//! is exact, with no binary floating point anywhere.
use vstd::prelude::*;
use vstd::string::StringExecFns;

verus! {

/// Number of `10^-12` units in one whole unit.
pub const ONE: u128 = 1_000_000_000_000;

/// Every stored value is at most `10^32` units of `10^-12`,
/// which keeps all the arithmetic here inside `u128`.
pub const UNITS_BOUND: u128 = 100_000_000_000_000_000_000_000_000_000_000;

pub open spec fn pow10(n: nat) -> int
    decreases n,
{
    if n == 0 {
        1
    } else {
        10 * pow10((n - 1) as nat)
    }
}

pub proof fn lemma_pow10_pos(n: nat)
    ensures
        pow10(n) >= 1,
    decreases n,
{
    if n > 0 {
        lemma_pow10_pos((n - 1) as nat);
    }
}

pub proof fn lemma_pow10_mono(a: nat, b: nat)
    requires
        a <= b,
    ensures
        pow10(a) <= pow10(b),
    decreases b,
{
    if a < b {
        lemma_pow10_mono(a, (b - 1) as nat);
        lemma_pow10_pos((b - 1) as nat);
    }
}

pub proof fn lemma_pow10_add(a: nat, b: nat)
    ensures
        pow10(a + b) == pow10(a) * pow10(b),
    decreases a,
{
    if a == 0 {
    } else {
        lemma_pow10_add((a - 1) as nat, b);
        assert(pow10(a + b) == 10 * pow10((a - 1) as nat + b));
        assert(10 * (pow10((a - 1) as nat) * pow10(b)) == (10 * pow10((a - 1) as nat)) * pow10(b))
            by (nonlinear_arith);
    }
}

pub proof fn lemma_pow10_vals()
    ensures
        pow10(12) == ONE,
        pow10(20) == 100_000_000_000_000_000_000,
        pow10(32) == UNITS_BOUND,
{
    reveal_with_fuel(pow10, 33);
}

pub open spec fn is_digit(b: u8) -> bool {
    48 <= b <= 57
}

pub open spec fn digit_val(b: u8) -> int {
    b - 48
}

/// First index at or after `i` that does not hold an ASCII digit.
pub open spec fn scan_digits(s: Seq<u8>, i: int) -> int
    decreases s.len() - i when 0 <= i <= s.len()
{
    if i < s.len() && is_digit(s[i]) {
        scan_digits(s, i + 1)
    } else {
        i
    }
}

pub proof fn lemma_scan_digits_eq(s: Seq<u8>, i: int, j: int)
    requires
        0 <= i <= j <= s.len(),
        forall|k: int| i <= k < j ==> is_digit(s[k]),
        j < s.len() ==> !is_digit(s[j]),
    ensures
        scan_digits(s, i) == j,
    decreases j - i,
{
    if i < j {
        lemma_scan_digits_eq(s, i + 1, j);
    }
}

/// Value of the digit run `s[i..j)` read as a base-10 number.
pub open spec fn digits_val(s: Seq<u8>, i: int, j: int) -> int
    decreases j - i when i <= j
{
    if i < j {
        digits_val(s, i, j - 1) * 10 + digit_val(s[j - 1])
    } else {
        0
    }
}

pub proof fn lemma_digits_val_bound(s: Seq<u8>, i: int, j: int)
    requires
        i <= j,
        forall|k: int| i <= k < j ==> is_digit(s[k]),
    ensures
        0 <= digits_val(s, i, j) < pow10((j - i) as nat),
    decreases j - i,
{
    if i < j {
        lemma_digits_val_bound(s, i, j - 1);
    }
}

/// Value in `10^-12` units of the fraction digits `s[i..k)`: up to twelve
/// digits are taken exactly; anything longer is rounded half up onto the
/// `10^-12` grid by its thirteenth digit.
pub open spec fn frac_units(s: Seq<u8>, i: int, k: int) -> int {
    if k - i <= 12 {
        digits_val(s, i, k) * pow10((12 - (k - i)) as nat)
    } else {
        digits_val(s, i, i + 12) + (if digit_val(s[i + 12]) >= 5 {
            1int
        } else {
            0int
        })
    }
}

/// A plain decimal numeral at position `i`: one or more integer digits
/// (at most 20), then optionally a point and one or more fraction digits,
/// rounded onto the `10^-12` grid past the twelfth. Yields the value in
/// `10^-12` units and the position just past the numeral.
pub open spec fn spec_number(s: Seq<u8>, i: int) -> Option<(int, int)> {
    let j = scan_digits(s, i);
    if j == i || j - i > 20 {
        None
    } else {
        let ip = digits_val(s, i, j);
        if j < s.len() && s[j] == 46 {
            let k = scan_digits(s, j + 1);
            if k == j + 1 {
                None
            } else {
                Some((ip * pow10(12) + frac_units(s, j + 1, k), k))
            }
        } else {
            Some((ip * pow10(12), j))
        }
    }
}

/// A whole byte string read as one decimal numeral, the forms a numeric
/// configuration value may take: `5`, `5.25`, `5.`, `.5`, with overlong
/// fractions rounded onto the grid.
pub open spec fn spec_parse_decimal(s: Seq<u8>) -> Option<int> {
    let j = scan_digits(s, 0);
    if j > 20 {
        None
    } else if j == s.len() {
        if j == 0 {
            None
        } else {
            Some(digits_val(s, 0, j) * pow10(12))
        }
    } else if s[j] == 46 {
        let k = scan_digits(s, j + 1);
        if k != s.len() {
            None
        } else if j == 0 && k == j + 1 {
            None
        } else if k == j + 1 {
            Some(digits_val(s, 0, j) * pow10(12))
        } else {
            Some(digits_val(s, 0, j) * pow10(12) + frac_units(s, j + 1, k))
        }
    } else {
        None
    }
}

pub open spec fn digit_byte(d: int) -> u8 {
    (48 + d) as u8
}

/// Base-10 rendering of a non-negative integer as ASCII bytes, most
/// significant digit first, with no leading zero.
pub open spec fn num_digits(n: int) -> Seq<u8>
    decreases n when n >= 0
{
    if 0 <= n < 10 {
        seq![digit_byte(n)]
    } else {
        num_digits(n / 10).push(digit_byte(n % 10))
    }
}

/// Fixed-width base-10 rendering: exactly `w` digits, zero-padded.
pub open spec fn fixed_digits(f: int, w: nat) -> Seq<u8>
    decreases w,
{
    if w == 0 {
        Seq::empty()
    } else {
        fixed_digits(f / 10, (w - 1) as nat).push(digit_byte(f % 10))
    }
}

/// The canonical rendering of a value in `10^-12` units: the whole part,
/// a point, and all twelve fraction digits.
pub open spec fn num_bytes(v: int) -> Seq<u8> {
    num_digits(v / pow10(12)) + seq![46u8] + fixed_digits(v % pow10(12), 12)
}

pub proof fn lemma_fixed_digits_len(f: int, w: nat)
    ensures
        fixed_digits(f, w).len() == w,
    decreases w,
{
    if w > 0 {
        lemma_fixed_digits_len(f / 10, (w - 1) as nat);
    }
}

pub proof fn lemma_num_digits_val(s: Seq<u8>, i: int, j: int, n: int)
    requires
        0 <= i <= j <= s.len(),
        n >= 0,
        s.subrange(i, j) == num_digits(n),
    ensures
        digits_val(s, i, j) == n,
        forall|k: int| i <= k < j ==> is_digit(s[k]),
        j - i == num_digits(n).len(),
    decreases n,
{
    assert(j - i == num_digits(n).len());
    if n < 10 {
        assert(s[i] == s.subrange(i, j)[0]);
        assert(s[i] == digit_byte(n));
        assert(digit_val(s[i]) == n);
        assert(digits_val(s, i, j) == digits_val(s, i, i) * 10 + digit_val(s[j - 1]));
    } else {
        let nd = num_digits(n);
        let sub = num_digits(n / 10);
        assert(nd == sub.push(digit_byte(n % 10)));
        assert(j - i == sub.len() + 1);
        assert forall|k: int| 0 <= k < sub.len() implies s.subrange(i, j - 1)[k] == sub[k] by {
            assert(s.subrange(i, j - 1)[k] == s[i + k]);
            assert(s.subrange(i, j)[k] == s[i + k]);
            assert(s.subrange(i, j)[k] == nd[k]);
            assert(nd[k] == sub[k]);
        }
        assert(s.subrange(i, j - 1) =~= sub);
        lemma_num_digits_val(s, i, j - 1, n / 10);
        assert(s[j - 1] == s.subrange(i, j)[j - 1 - i]);
        assert(s[j - 1] == digit_byte(n % 10));
        vstd::arithmetic::div_mod::lemma_fundamental_div_mod(n, 10);
        vstd::arithmetic::div_mod::lemma_mod_bound(n, 10);
    }
}

pub proof fn lemma_fixed_digits_val(s: Seq<u8>, i: int, j: int, f: int, w: nat)
    requires
        0 <= i <= j <= s.len(),
        j - i == w,
        0 <= f < pow10(w),
        s.subrange(i, j) == fixed_digits(f, w),
    ensures
        digits_val(s, i, j) == f,
        forall|k: int| i <= k < j ==> is_digit(s[k]),
    decreases w,
{
    if w == 0 {
    } else {
        let fd = fixed_digits(f, w);
        let sub = fixed_digits(f / 10, (w - 1) as nat);
        assert(fd == sub.push(digit_byte(f % 10)));
        lemma_fixed_digits_len(f / 10, (w - 1) as nat);
        assert forall|k: int| 0 <= k < sub.len() implies s.subrange(i, j - 1)[k] == sub[k] by {
            assert(s.subrange(i, j - 1)[k] == s[i + k]);
            assert(s.subrange(i, j)[k] == s[i + k]);
            assert(s.subrange(i, j)[k] == fd[k]);
            assert(fd[k] == sub[k]);
        }
        assert(s.subrange(i, j - 1) =~= sub);
        vstd::arithmetic::div_mod::lemma_fundamental_div_mod(f, 10);
        vstd::arithmetic::div_mod::lemma_mod_bound(f, 10);
        lemma_fixed_digits_val(s, i, j - 1, f / 10, (w - 1) as nat);
        assert(s[j - 1] == s.subrange(i, j)[j - 1 - i]);
        assert(s[j - 1] == digit_byte(f % 10));
    }
}

pub proof fn lemma_num_digits_len(n: int, k: nat)
    requires
        k >= 1,
        0 <= n < pow10(k),
    ensures
        1 <= num_digits(n).len() <= k,
    decreases n,
{
    if n < 10 {
    } else {
        if k == 1 {
            reveal_with_fuel(pow10, 2);
            assert(false);
        }
        lemma_num_digits_len(n / 10, (k - 1) as nat);
    }
}

/// Reading back the canonical rendering: at any position where the bytes
/// spell `num_bytes(v)` and no digit follows, the numeral grammar reads
/// exactly `v`.
pub proof fn lemma_number_at(s: Seq<u8>, i: int, v: int)
    requires
        0 <= i,
        i + num_bytes(v).len() <= s.len(),
        s.subrange(i, i + num_bytes(v).len()) == num_bytes(v),
        0 <= v < pow10(32),
        i + num_bytes(v).len() < s.len() ==> !is_digit(s[i + num_bytes(v).len()]),
    ensures
        spec_number(s, i) == Some((v, i + num_bytes(v).len())),
{
    lemma_pow10_vals();
    lemma_pow10_add(20, 12);
    let p12 = pow10(12);
    let p20 = pow10(20);
    assert(v < pow10(20) * pow10(12));
    vstd::arithmetic::div_mod::lemma_fundamental_div_mod(v, p12);
    vstd::arithmetic::div_mod::lemma_mod_bound(v, p12);
    let ip = v / p12;
    let f = v % p12;
    assert(ip * p12 <= v);
    assert(ip < p20) by (nonlinear_arith)
        requires
            p12 >= 1,
            0 <= ip,
            ip * p12 < p20 * p12;
    let nb = num_bytes(v);
    let id = num_digits(ip);
    let fd = fixed_digits(f, 12);
    let ilen = id.len() as int;
    lemma_fixed_digits_len(f, 12);
    let nlen = nb.len() as int;
    assert(nlen == ilen + 13);
    assert forall|k: int| 0 <= k < ilen implies s.subrange(i, i + ilen)[k] == id[k] by {
        assert(s.subrange(i, i + ilen)[k] == s[i + k]);
        assert(s.subrange(i, i + nlen)[k] == s[i + k]);
        assert(nb[k] == id[k]);
    }
    assert(s.subrange(i, i + ilen) =~= id);
    lemma_num_digits_val(s, i, i + ilen, ip);
    lemma_num_digits_len(ip, 20);
    assert(s[i + ilen] == s.subrange(i, i + nlen)[ilen]);
    assert(nb[ilen] == 46);
    assert(s[i + ilen] == 46);
    assert(!is_digit(s[i + ilen]));
    lemma_scan_digits_eq(s, i, i + ilen);
    assert forall|k: int| 0 <= k < 12 implies s.subrange(i + ilen + 1, i + nlen)[k] == fd[k] by {
        assert(s.subrange(i + ilen + 1, i + nlen)[k] == s[i + ilen + 1 + k]);
        assert(s.subrange(i, i + nlen)[ilen + 1 + k] == s[i + ilen + 1 + k]);
        assert(nb[ilen + 1 + k] == fd[k]);
    }
    assert(s.subrange(i + ilen + 1, i + nlen) =~= fd);
    lemma_fixed_digits_val(s, i + ilen + 1, i + nlen, f, 12);
    lemma_scan_digits_eq(s, i + ilen + 1, i + nlen);
    assert(spec_number(s, i) == Some((ip * p12 + f * pow10(0), i + nlen)));
}

/// A non-negative decimal value, exact to `10^-12`.
#[derive(Clone, Copy, PartialEq, Eq, Structural, Debug)]
pub struct Decimal {
    units: u128,
}

impl View for Decimal {
    type V = int;

    closed spec fn view(&self) -> int {
        self.units as int
    }
}

impl Decimal {
    #[verifier::type_invariant]
    pub closed spec fn wf(self) -> bool {
        self.units <= UNITS_BOUND
    }

    /// Whether this value is at or below `other`.
    pub fn le(&self, other: &Decimal) -> (b: bool)
        ensures
            b == (self@ <= other@),
    {
        self.units <= other.units
    }

    /// The value rendered with exactly two fraction digits, rounding
    /// half away from zero.
    pub fn fmt_2dp(&self) -> (s: String)
        ensures
            s@ == spec_fmt_2dp(self@),
    {
        proof {
            use_type_invariant(self);
            lemma_pow10_vals();
        }
        let h: u128 = (self.units + 5_000_000_000) / 10_000_000_000;
        let mut s = String::new();
        push_dec_digits(h / 100, &mut s);
        s.append(".");
        s.append(digit_str((h % 100) / 10));
        s.append(digit_str(h % 10));
        proof {
            reveal_strlit(".");
            assert(s@ =~= spec_fmt_2dp(self@));
        }
        s
    }
}

pub open spec fn digit_char(d: int) -> char {
    if d == 0 {
        '0'
    } else if d == 1 {
        '1'
    } else if d == 2 {
        '2'
    } else if d == 3 {
        '3'
    } else if d == 4 {
        '4'
    } else if d == 5 {
        '5'
    } else if d == 6 {
        '6'
    } else if d == 7 {
        '7'
    } else if d == 8 {
        '8'
    } else {
        '9'
    }
}

/// Base-10 rendering of a non-negative integer, most significant digit first.
pub open spec fn dec_digits(n: int) -> Seq<char>
    decreases n when n >= 0
{
    if 0 <= n < 10 {
        seq![digit_char(n)]
    } else {
        dec_digits(n / 10).push(digit_char(n % 10))
    }
}

/// Two-fraction-digit rendering of a value given in `10^-12` units,
/// rounded half away from zero.
pub open spec fn spec_fmt_2dp(v: int) -> Seq<char> {
    let h = (v + 5_000_000_000) / 10_000_000_000;
    dec_digits(h / 100) + seq!['.', digit_char((h % 100) / 10), digit_char(h % 10)]
}

fn digit_str(d: u128) -> (r: &'static str)
    requires
        d < 10,
    ensures
        r@ == seq![digit_char(d as int)],
{
    let r: &'static str = if d == 0 {
        proof { reveal_strlit("0"); }
        "0"
    } else if d == 1 {
        proof { reveal_strlit("1"); }
        "1"
    } else if d == 2 {
        proof { reveal_strlit("2"); }
        "2"
    } else if d == 3 {
        proof { reveal_strlit("3"); }
        "3"
    } else if d == 4 {
        proof { reveal_strlit("4"); }
        "4"
    } else if d == 5 {
        proof { reveal_strlit("5"); }
        "5"
    } else if d == 6 {
        proof { reveal_strlit("6"); }
        "6"
    } else if d == 7 {
        proof { reveal_strlit("7"); }
        "7"
    } else if d == 8 {
        proof { reveal_strlit("8"); }
        "8"
    } else {
        proof { reveal_strlit("9"); }
        "9"
    };
    proof {
        assert(r@ =~= seq![digit_char(d as int)]);
    }
    r
}

fn push_dec_digits(n: u128, out: &mut String)
    ensures
        final(out)@ == old(out)@ + dec_digits(n as int),
    decreases n,
{
    if n < 10 {
        out.append(digit_str(n));
        proof {
            assert(final(out)@ =~= old(out)@ + dec_digits(n as int));
        }
    } else {
        push_dec_digits(n / 10, out);
        out.append(digit_str(n % 10));
        proof {
            assert(final(out)@ =~= old(out)@ + dec_digits(n as int));
        }
    }
}

fn pow10_u128(e: usize) -> (r: u128)
    requires
        e <= 12,
    ensures
        r as int == pow10(e as nat),
{
    let mut r: u128 = 1;
    let mut k: usize = 0;
    while k < e
        invariant
            k <= e,
            e <= 12,
            r as int == pow10(k as nat),
        decreases e - k,
    {
        proof {
            lemma_pow10_mono(k as nat, 11);
            lemma_pow10_vals();
            reveal_with_fuel(pow10, 13);
        }
        r = r * 10;
        k = k + 1;
    }
    r
}

/// The end of the digit run starting at `i`, as `scan_digits` finds it.
fn digits_end(s: &[u8], i: usize) -> (j: usize)
    requires
        i <= s@.len(),
    ensures
        j as int == scan_digits(s@, i as int),
        i <= j <= s@.len(),
        forall|k: int| i <= k < j ==> is_digit(s@[k]),
{
    let mut j = i;
    while j < s.len() && 48 <= s[j] && s[j] <= 57
        invariant
            i <= j <= s@.len(),
            forall|k: int| i <= k < j ==> is_digit(s@[k]),
        decreases s@.len() - j,
    {
        j = j + 1;
    }
    proof {
        lemma_scan_digits_eq(s@, i as int, j as int);
    }
    j
}

/// The value of the digit run `s[i..j)`, at most twenty digits.
fn digits_value(s: &[u8], i: usize, j: usize) -> (v: u128)
    requires
        i <= j <= s@.len(),
        j - i <= 20,
        forall|k: int| i <= k < j ==> is_digit(s@[k]),
    ensures
        v as int == digits_val(s@, i as int, j as int),
        (v as int) < pow10((j - i) as nat),
{
    let mut v: u128 = 0;
    let mut k = i;
    while k < j
        invariant
            i <= k <= j <= s@.len(),
            j - i <= 20,
            forall|kk: int| i <= kk < j ==> is_digit(s@[kk]),
            v as int == digits_val(s@, i as int, k as int),
        decreases j - k,
    {
        proof {
            lemma_digits_val_bound(s@, i as int, k as int);
            lemma_pow10_mono((k - i) as nat, 19);
            lemma_pow10_vals();
            reveal_with_fuel(pow10, 21);
        }
        let d = s[k] - 48;
        v = v * 10 + (d as u128);
        k = k + 1;
    }
    proof {
        lemma_digits_val_bound(s@, i as int, j as int);
    }
    v
}

/// The fraction digits `s[i..k)` as `10^-12` units, rounded past twelve.
fn frac_value(s: &[u8], i: usize, k: usize) -> (f: u128)
    requires
        i < k <= s@.len(),
        forall|kk: int| i <= kk < k ==> is_digit(s@[kk]),
    ensures
        f as int == frac_units(s@, i as int, k as int),
        f as int <= pow10(12),
{
    proof {
        lemma_pow10_vals();
    }
    let fd = if k - i > 12 {
        12
    } else {
        k - i
    };
    let fv = digits_value(s, i, i + fd);
    let scale = pow10_u128(12 - fd);
    proof {
        lemma_pow10_add(fd as nat, (12 - fd) as nat);
        lemma_pow10_pos((12 - fd) as nat);
        let fvi = fv as int;
        let pfd = pow10(fd as nat);
        let prest = pow10((12 - fd) as nat);
        assert(fvi * prest < pfd * prest) by (nonlinear_arith)
            requires
                fvi < pfd,
                0 <= fvi,
                prest >= 1;
    }
    let frac = fv * scale;
    if k - i > 12 && s[i + 12] >= 53 {
        frac + 1
    } else {
        frac
    }
}

/// One decimal numeral starting at `i`, exactly as `spec_number` reads it.
pub fn parse_number(s: &[u8], i: usize) -> (r: Option<(Decimal, usize)>)
    requires
        i <= s@.len(),
    ensures
        match r {
            Some((d, j)) => spec_number(s@, i as int) == Some((d@, j as int)) && i < j <= s@.len(),
            None => spec_number(s@, i as int) is None,
        },
{
    let j = digits_end(s, i);
    if j == i || j - i > 20 {
        return None;
    }
    let ip = digits_value(s, i, j);
    proof {
        lemma_pow10_mono((j - i) as nat, 20);
        lemma_pow10_vals();
        let ipi = ip as int;
        let p12 = pow10(12);
        let p20 = pow10(20);
        assert(ipi * p12 <= (p20 - 1) * p12) by (nonlinear_arith)
            requires
                ipi < p20,
                0 <= ipi,
                p12 >= 1;
        lemma_pow10_add(20, 12);
        lemma_pow10_vals();
    }
    if j < s.len() && s[j] == 46 {
        let m = digits_end(s, j + 1);
        if m == j + 1 {
            return None;
        }
        let f = frac_value(s, j + 1, m);
        let units = ip * ONE + f;
        Some((Decimal { units }, m))
    } else {
        let units = ip * ONE;
        Some((Decimal { units }, j))
    }
}

/// A whole byte string read as one decimal numeral, for configuration
/// values such as the alert threshold.
pub fn parse_decimal(s: &[u8]) -> (r: Option<Decimal>)
    ensures
        match r {
            Some(d) => spec_parse_decimal(s@) == Some(d@),
            None => spec_parse_decimal(s@) is None,
        },
{
    let j = digits_end(s, 0);
    if j > 20 {
        return None;
    }
    let ip = digits_value(s, 0, j);
    proof {
        lemma_pow10_mono((j - 0) as nat, 20);
        lemma_pow10_vals();
        let ipi = ip as int;
        let p12 = pow10(12);
        let p20 = pow10(20);
        assert(ipi * p12 <= (p20 - 1) * p12) by (nonlinear_arith)
            requires
                ipi < p20,
                0 <= ipi,
                p12 >= 1;
        lemma_pow10_add(20, 12);
        lemma_pow10_vals();
    }
    if j == s.len() {
        if j == 0 {
            None
        } else {
            Some(Decimal { units: ip * ONE })
        }
    } else if s[j] == 46 {
        let k = digits_end(s, j + 1);
        if k != s.len() {
            None
        } else if j == 0 && k == j + 1 {
            None
        } else if k == j + 1 {
            Some(Decimal { units: ip * ONE })
        } else {
            let f = frac_value(s, j + 1, k);
            Some(Decimal { units: ip * ONE + f })
        }
    } else {
        None
    }
}

} // verus!
