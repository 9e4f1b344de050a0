//! Decimal numbers in text, held as tenths: reading a number the way a
//! float literal is written (`12.5`, `-3`, `.5`, `1.5e1`, `inf`), rounded
//! half up to one decimal place, and writing tenths with exactly one decimal
//! place.

use vstd::prelude::*;
use crate::text::push_chars;

verus! {

/// The largest magnitude, in tenths, that the library holds.
pub const MAX_TENTHS: u64 = 9223372036854775807;

/// What a piece of text holds as a number.
#[derive(Debug, Clone, Copy, PartialEq, Eq, Structural)]
pub enum Decimal {
    /// Not a number at all.
    Malformed,
    /// A number that is infinite, not a number (`inf`, `NaN`), or beyond
    /// `MAX_TENTHS`.
    NonFinite,
    /// A finite number: its sign and its magnitude in tenths, rounded half up.
    Finite { negative: bool, tenths: u64 },
}

pub open spec fn is_digit(c: char) -> bool {
    '0' <= c && c <= '9'
}

pub open spec fn digit_value(c: char) -> nat {
    (c as u32 - '0' as u32) as nat
}

pub open spec fn digit_char(d: nat) -> char {
    if d == 0 {
        '0'
    } else if d == 1 {
        '1'
    } else if d == 2 {
        '2'
    } else if d == 3 {
        '3'
    } else if d == 4 {
        '4'
    } else if d == 5 {
        '5'
    } else if d == 6 {
        '6'
    } else if d == 7 {
        '7'
    } else if d == 8 {
        '8'
    } else {
        '9'
    }
}

pub open spec fn all_digits(s: Seq<char>) -> bool {
    forall|i: int| 0 <= i < s.len() ==> is_digit(#[trigger] s[i])
}

pub open spec fn all_zeros(s: Seq<char>) -> bool {
    forall|i: int| 0 <= i < s.len() ==> #[trigger] s[i] == '0'
}

/// The value of a string of decimal digits.
pub open spec fn digits_value(s: Seq<char>) -> nat
    decreases s.len(),
{
    if s.len() == 0 {
        0
    } else {
        digits_value(s.drop_last()) * 10 + digit_value(s.last())
    }
}

/// Length of the sign (`+` or `-`) that starts `s`.
pub open spec fn sign_len(s: Seq<char>) -> int {
    if s.len() > 0 && (s[0] == '+' || s[0] == '-') {
        1
    } else {
        0
    }
}

pub open spec fn unsigned_part(s: Seq<char>) -> Seq<char> {
    s.subrange(sign_len(s), s.len() as int)
}

/// Index of the first `c` or `d` in `s`, or `s.len()`.
pub open spec fn first_of(s: Seq<char>, c: char, d: char) -> nat
    decreases s.len(),
{
    if s.len() == 0 {
        0
    } else if s[0] == c || s[0] == d {
        0
    } else {
        1 + first_of(s.drop_first(), c, d)
    }
}

/// The part of the unsigned text before its exponent marker (`e` or `E`).
pub open spec fn mantissa(s: Seq<char>) -> Seq<char> {
    let u = unsigned_part(s);
    u.subrange(0, first_of(u, 'e', 'E') as int)
}

/// What follows the exponent marker, where there is one.
pub open spec fn exponent_text(s: Seq<char>) -> Option<Seq<char>> {
    let u = unsigned_part(s);
    let e = first_of(u, 'e', 'E');
    if e < u.len() {
        Some(u.subrange(e as int + 1, u.len() as int))
    } else {
        None
    }
}

pub open spec fn int_digits(s: Seq<char>) -> Seq<char> {
    let m = mantissa(s);
    m.subrange(0, first_of(m, '.', '.') as int)
}

pub open spec fn frac_digits(s: Seq<char>) -> Seq<char> {
    let m = mantissa(s);
    let k = first_of(m, '.', '.');
    if k < m.len() {
        m.subrange(k as int + 1, m.len() as int)
    } else {
        Seq::empty()
    }
}

/// There is no exponent, or it is a sign and at least one digit.
pub open spec fn exponent_ok(s: Seq<char>) -> bool {
    match exponent_text(s) {
        None => true,
        Some(x) => unsigned_part(x).len() > 0 && all_digits(unsigned_part(x)),
    }
}

/// The power of ten that the exponent gives; 0 without one.
pub open spec fn exponent_value(s: Seq<char>) -> int {
    match exponent_text(s) {
        None => 0,
        Some(x) => if sign_len(x) == 1 && x[0] == '-' {
            -(digits_value(unsigned_part(x)) as int)
        } else {
            digits_value(unsigned_part(x)) as int
        },
    }
}

/// `s` is a sign, digits with an optional fraction (at least one digit in
/// all), and an optional exponent.
pub open spec fn is_decimal_text(s: Seq<char>) -> bool {
    all_digits(int_digits(s)) && all_digits(frac_digits(s)) && int_digits(s).len()
        + frac_digits(s).len() > 0 && exponent_ok(s)
}

/// `c` is the lower-case ASCII letter `l`, or its upper-case form.
pub open spec fn same_letter(c: char, l: char) -> bool {
    c == l || (c as u32) + 32 == (l as u32)
}

pub open spec fn equals_ignore_case(s: Seq<char>, w: Seq<char>) -> bool {
    s.len() == w.len() && forall|i: int| 0 <= i < s.len() ==> same_letter(#[trigger] s[i], w[i])
}

/// `s` is a sign and one of the words `inf`, `infinity`, `nan`, in any case.
pub open spec fn is_non_finite_word(s: Seq<char>) -> bool {
    let u = unsigned_part(s);
    equals_ignore_case(u, seq!['i', 'n', 'f']) || equals_ignore_case(
        u,
        seq!['i', 'n', 'f', 'i', 'n', 'i', 't', 'y'],
    ) || equals_ignore_case(u, seq!['n', 'a', 'n'])
}

/// The digits of the mantissa, without the point.
pub open spec fn mantissa_digits(s: Seq<char>) -> Seq<char> {
    int_digits(s) + frac_digits(s)
}

/// How many of the mantissa's digits stand before the tenths' point.
pub open spec fn point(s: Seq<char>) -> int {
    int_digits(s).len() + exponent_value(s) + 1
}

pub open spec fn zeros(n: nat) -> Seq<char> {
    Seq::new(n, |i: int| '0')
}

/// The digits `g` shifted so that `p` of them stand before the tenths'
/// point: the magnitude in whole tenths, before rounding.
pub open spec fn scaled(g: Seq<char>, p: int) -> Seq<char> {
    if p >= g.len() {
        g + zeros((p - g.len()) as nat)
    } else if p <= 0 {
        Seq::empty()
    } else {
        g.subrange(0, p)
    }
}

/// The first digit after the tenths is 5 or more.
pub open spec fn rounds_up(g: Seq<char>, p: int) -> bool {
    0 <= p < g.len() && digit_value(g[p]) >= 5
}

/// The digits `g`, `p` of them before the tenths' point, in tenths rounded
/// half up.
pub open spec fn magnitude_at(g: Seq<char>, p: int) -> nat {
    digits_value(scaled(g, p)) + if rounds_up(g, p) {
        1nat
    } else {
        0nat
    }
}

/// The magnitude of a decimal text in tenths, rounded half up.
pub open spec fn magnitude_tenths(s: Seq<char>) -> nat {
    magnitude_at(mantissa_digits(s), point(s))
}

/// The text carries a minus sign and a non-zero digit.
pub open spec fn is_negative_text(s: Seq<char>) -> bool {
    sign_len(s) == 1 && s[0] == '-' && !(all_zeros(int_digits(s)) && all_zeros(frac_digits(s)))
}

/// What `s` holds as a number.
pub open spec fn decimal_of(s: Seq<char>) -> Decimal {
    if is_decimal_text(s) {
        if magnitude_tenths(s) > MAX_TENTHS {
            Decimal::NonFinite
        } else {
            Decimal::Finite { negative: is_negative_text(s), tenths: magnitude_tenths(s) as u64 }
        }
    } else if is_non_finite_word(s) {
        Decimal::NonFinite
    } else {
        Decimal::Malformed
    }
}

proof fn lemma_first_of_is(s: Seq<char>, c: char, d: char, k: int)
    requires
        0 <= k <= s.len(),
        forall|i: int| 0 <= i < k ==> s[i] != c && s[i] != d,
        k < s.len() ==> (s[k] == c || s[k] == d),
    ensures
        first_of(s, c, d) == k,
    decreases k,
{
    if k > 0 {
        assert forall|i: int| 0 <= i < k - 1 implies s.drop_first()[i] != c && s.drop_first()[i]
            != d by {
            assert(s.drop_first()[i] == s[i + 1]);
        }
        lemma_first_of_is(s.drop_first(), c, d, k - 1);
    }
}

proof fn lemma_digits_value_monotone(s: Seq<char>, i: int)
    requires
        0 <= i <= s.len(),
    ensures
        digits_value(s.subrange(0, i)) <= digits_value(s),
    decreases s.len(),
{
    if i < s.len() {
        assert(s.drop_last().subrange(0, i) =~= s.subrange(0, i));
        lemma_digits_value_monotone(s.drop_last(), i);
    } else {
        assert(s.subrange(0, i) =~= s);
    }
}

fn is_same_letter(c: char, l: char) -> (r: bool)
    ensures
        r == same_letter(c, l),
{
    c == l || (c as u32) as u64 + 32 == (l as u32) as u64
}

fn matches_word(s: &Vec<char>, from: usize, w: &[char]) -> (r: bool)
    requires
        from <= s.len(),
    ensures
        r == equals_ignore_case(s@.subrange(from as int, s.len() as int), w@),
{
    let ghost u = s@.subrange(from as int, s.len() as int);
    if s.len() - from != w.len() {
        return false;
    }
    let mut i: usize = 0;
    while i < w.len()
        invariant
            from <= s.len(),
            s.len() - from == w.len(),
            u == s@.subrange(from as int, s.len() as int),
            i <= w.len(),
            forall|k: int| 0 <= k < i ==> same_letter(#[trigger] u[k], w@[k]),
        decreases w.len() - i,
    {
        if !is_same_letter(s[from + i], w[i]) {
            assert(u[i as int] == s@[from + i]);
            return false;
        }
        assert(u[i as int] == s@[from + i]);
        i = i + 1;
    }
    true
}

fn find_first(s: &Vec<char>, from: usize, to: usize, c: char, d: char) -> (k: usize)
    requires
        from <= to <= s.len(),
    ensures
        from <= k <= to,
        k - from == first_of(s@.subrange(from as int, to as int), c, d),
{
    let mut k: usize = from;
    while k < to && s[k] != c && s[k] != d
        invariant
            from <= k <= to <= s.len(),
            forall|i: int| from <= i < k ==> s@[i] != c && s@[i] != d,
        decreases to - k,
    {
        k = k + 1;
    }
    proof {
        let u = s@.subrange(from as int, to as int);
        assert forall|i: int| 0 <= i < k - from implies u[i] != c && u[i] != d by {
            assert(u[i] == s@[from + i]);
        }
        if k < to {
            assert(u[k - from] == s@[k as int]);
        }
        lemma_first_of_is(u, c, d, k - from);
    }
    k
}

fn range_all_digits(s: &Vec<char>, from: usize, to: usize) -> (r: bool)
    requires
        from <= to <= s.len(),
    ensures
        r == all_digits(s@.subrange(from as int, to as int)),
{
    let mut i: usize = from;
    while i < to
        invariant
            from <= i <= to <= s.len(),
            forall|j: int| from <= j < i ==> is_digit(#[trigger] s@[j]),
        decreases to - i,
    {
        if !('0' <= s[i] && s[i] <= '9') {
            assert(s@.subrange(from as int, to as int)[i - from] == s@[i as int]);
            return false;
        }
        i = i + 1;
    }
    proof {
        let t = s@.subrange(from as int, to as int);
        assert forall|j: int| 0 <= j < t.len() implies is_digit(#[trigger] t[j]) by {
            assert(t[j] == s@[from + j]);
        }
    }
    true
}

fn range_all_zeros(s: &Vec<char>, from: usize, to: usize) -> (r: bool)
    requires
        from <= to <= s.len(),
    ensures
        r == all_zeros(s@.subrange(from as int, to as int)),
{
    let mut i: usize = from;
    while i < to
        invariant
            from <= i <= to <= s.len(),
            forall|j: int| from <= j < i ==> #[trigger] s@[j] == '0',
        decreases to - i,
    {
        if s[i] != '0' {
            assert(s@.subrange(from as int, to as int)[i - from] == s@[i as int]);
            return false;
        }
        i = i + 1;
    }
    proof {
        let t = s@.subrange(from as int, to as int);
        assert forall|j: int| 0 <= j < t.len() implies #[trigger] t[j] == '0' by {
            assert(t[j] == s@[from + j]);
        }
    }
    true
}

/// The value of the digits `s[from..to]`, or `None` where it exceeds
/// `limit`.
fn range_value(s: &Vec<char>, from: usize, to: usize, limit: u128) -> (r: Option<u128>)
    requires
        from <= to <= s.len(),
        9 <= limit <= 0x1_0000_0000_0000_0000_0000_0000_0000,
        all_digits(s@.subrange(from as int, to as int)),
    ensures
        r is Some <==> digits_value(s@.subrange(from as int, to as int)) <= limit,
        r is Some ==> r->0 == digits_value(s@.subrange(from as int, to as int)),
{
    let ghost t = s@.subrange(from as int, to as int);
    let mut value: u128 = 0;
    let mut i: usize = from;
    while i < to
        invariant
            from <= i <= to <= s.len(),
            9 <= limit <= 0x1_0000_0000_0000_0000_0000_0000_0000,
            t == s@.subrange(from as int, to as int),
            all_digits(t),
            value == digits_value(s@.subrange(from as int, i as int)),
            value <= limit,
        decreases to - i,
    {
        let c = s[i];
        assert(t[i - from] == c);
        let d: u128 = (c as u32 - '0' as u32) as u128;
        proof {
            let p = s@.subrange(from as int, i + 1);
            assert(p.drop_last() =~= s@.subrange(from as int, i as int));
            assert(p.last() == c);
        }
        if value > (limit - d) / 10 {
            proof {
                assert(t.subrange(0, i + 1 - from) =~= s@.subrange(from as int, i + 1));
                lemma_digits_value_monotone(t, i + 1 - from);
            }
            return None;
        }
        value = value * 10 + d;
        i = i + 1;
    }
    Some(value)
}

proof fn lemma_zeros_value(s: Seq<char>)
    requires
        all_zeros(s),
    ensures
        digits_value(s) == 0,
    decreases s.len(),
{
    if s.len() > 0 {
        lemma_zeros_value(s.drop_last());
    }
}

proof fn lemma_nonzero_value(s: Seq<char>)
    requires
        all_digits(s),
        !all_zeros(s),
    ensures
        digits_value(s) >= 1,
    decreases s.len(),
{
    if s.len() > 0 {
        if all_zeros(s.drop_last()) {
            assert(s.last() != '0') by {
                if s.last() == '0' {
                    assert forall|i: int| 0 <= i < s.len() implies #[trigger] s[i] == '0' by {
                        if i < s.len() - 1 {
                            assert(s[i] == s.drop_last()[i]);
                        }
                    }
                }
            }
        } else {
            lemma_nonzero_value(s.drop_last());
        }
    }
}

pub open spec fn pow10(n: nat) -> nat
    decreases n,
{
    if n == 0 {
        1
    } else {
        10 * pow10((n - 1) as nat)
    }
}

proof fn lemma_shifted_value(s: Seq<char>, k: nat)
    ensures
        digits_value(s + zeros(k)) == digits_value(s) * pow10(k),
    decreases k,
{
    if k > 0 {
        lemma_shifted_value(s, (k - 1) as nat);
        let t = s + zeros(k);
        assert(t.drop_last() =~= s + zeros((k - 1) as nat));
        assert(t.last() == '0');
        assert(digit_value('0') == 0);
        assert(digits_value(t) == digits_value(t.drop_last()) * 10 + digit_value(t.last()));
        assert(pow10(k) == 10 * pow10((k - 1) as nat));
        let a = digits_value(s);
        let b = pow10((k - 1) as nat);
        assert(digits_value(t.drop_last()) == a * b);
        assert(a * b * 10 == a * (10 * b)) by (nonlinear_arith);
        assert(digits_value(t) == a * b * 10);
    } else {
        assert(s + zeros(0) =~= s);
        assert(pow10(0) == 1);
        assert(digits_value(s) * 1 == digits_value(s));
    }
}

/// A non-zero mantissa shifted 20 places is beyond `MAX_TENTHS`.
proof fn lemma_far_shift(s: Seq<char>, k: nat)
    requires
        all_digits(s),
        !all_zeros(s),
        k >= 20,
    ensures
        digits_value(s + zeros(k)) > MAX_TENTHS,
{
    lemma_nonzero_value(s);
    lemma_shifted_value(s, 20);
    reveal_with_fuel(pow10, 21);
    assert(pow10(20) == 100000000000000000000);
    let a = digits_value(s);
    assert(a * 100000000000000000000 >= 100000000000000000000) by (nonlinear_arith)
        requires
            a >= 1,
    ;
    let t = s + zeros(k);
    assert(t.subrange(0, s.len() as int + 20) =~= s + zeros(20));
    lemma_digits_value_monotone(t, s.len() as int + 20);
}

fn zeros_vec(n: usize) -> (r: Vec<char>)
    ensures
        r@ == zeros(n as nat),
{
    let mut out: Vec<char> = Vec::new();
    let mut i: usize = 0;
    while i < n
        invariant
            i <= n,
            out@ == zeros(i as nat),
        decreases n - i,
    {
        out.push('0');
        proof {
            assert(out@ =~= zeros((i + 1) as nat));
        }
        i = i + 1;
    }
    out
}

proof fn lemma_concat_digits(a: Seq<char>, b: Seq<char>)
    ensures
        all_zeros(a + b) <==> all_zeros(a) && all_zeros(b),
        all_digits(a) && all_digits(b) ==> all_digits(a + b),
{
    let g = a + b;
    if all_zeros(g) {
        assert forall|q: int| 0 <= q < a.len() implies #[trigger] a[q] == '0' by {
            assert(g[q] == a[q]);
        }
        assert forall|q: int| 0 <= q < b.len() implies #[trigger] b[q] == '0' by {
            assert(g[a.len() + q] == b[q]);
        }
    }
    if all_zeros(a) && all_zeros(b) {
        assert forall|q: int| 0 <= q < g.len() implies #[trigger] g[q] == '0' by {
            if q < a.len() {
                assert(g[q] == a[q]);
            } else {
                assert(g[q] == b[q - a.len()]);
            }
        }
    }
    if all_digits(a) && all_digits(b) {
        assert forall|q: int| 0 <= q < g.len() implies is_digit(#[trigger] g[q]) by {
            if q < a.len() {
                assert(g[q] == a[q]);
            } else {
                assert(g[q] == b[q - a.len()]);
            }
        }
    }
}

proof fn lemma_zero_magnitude(g: Seq<char>, p: int)
    requires
        all_zeros(g),
    ensures
        magnitude_at(g, p) == 0,
{
    let sd = scaled(g, p);
    assert forall|q: int| 0 <= q < sd.len() implies #[trigger] sd[q] == '0' by {
        if p >= g.len() {
            if q >= g.len() {
                assert(sd[q] == zeros((p - g.len()) as nat)[q - g.len()]);
            } else {
                assert(sd[q] == g[q]);
            }
        } else {
            assert(sd[q] == g[q]);
        }
    }
    lemma_zeros_value(sd);
    if 0 <= p < g.len() {
        assert(g[p] == '0');
    }
}

/// Where the parts of the number after its sign lie: `(e, k, f)` with the
/// exponent marker (or the end) at `e`, the integer digits in
/// `s[start..k]` and the fraction digits in `s[f..e]`.
fn mantissa_bounds(s: &Vec<char>, start: usize) -> (r: (usize, usize, usize))
    requires
        start == sign_len(s@),
    ensures
        start <= r.1 <= r.2 <= r.0 <= s.len(),
        int_digits(s@) == s@.subrange(start as int, r.1 as int),
        frac_digits(s@) == s@.subrange(r.2 as int, r.0 as int),
        r.0 < s.len() ==> exponent_text(s@) == Some(s@.subrange(r.0 + 1, s.len() as int)),
        r.0 == s.len() ==> exponent_text(s@) is None,
{
    let ghost u = unsigned_part(s@);
    assert(u =~= s@.subrange(start as int, s.len() as int));
    let ei = find_first(s, start, s.len(), 'e', 'E');
    let ghost m = mantissa(s@);
    assert(m =~= s@.subrange(start as int, ei as int));
    let k = find_first(s, start, ei, '.', '.');
    assert(int_digits(s@) =~= s@.subrange(start as int, k as int));
    let frac_start: usize = if k < ei {
        k + 1
    } else {
        k
    };
    assert(frac_digits(s@) =~= s@.subrange(frac_start as int, ei as int));
    if ei < s.len() {
        assert(u.subrange(ei - start + 1, u.len() as int) =~= s@.subrange(ei + 1, s.len() as int));
    }
    (ei, k, frac_start)
}

/// Reads the exponent that follows a marker at `e` (none where `e` is the
/// end): whether it is well formed, whether it is negative, and where its
/// digits start (they run to the end).
fn read_exponent(s: &Vec<char>, e: usize) -> (r: (bool, bool, usize))
    requires
        e <= s.len(),
        e < s.len() ==> exponent_text(s@) == Some(s@.subrange(e + 1, s.len() as int)),
        e == s.len() ==> exponent_text(s@) is None,
    ensures
        r.0 == exponent_ok(s@),
        r.2 <= s.len(),
        r.0 ==> all_digits(s@.subrange(r.2 as int, s.len() as int)),
        r.0 ==> exponent_value(s@) == if r.1 {
            -(digits_value(s@.subrange(r.2 as int, s.len() as int)) as int)
        } else {
            digits_value(s@.subrange(r.2 as int, s.len() as int)) as int
        },
{
    if e == s.len() {
        assert(s@.subrange(e as int, s.len() as int) =~= Seq::<char>::empty());
        return (true, false, e);
    }
    let x_start = e + 1;
    let ghost x = s@.subrange(x_start as int, s.len() as int);
    let signed = x_start < s.len() && (s[x_start] == '+' || s[x_start] == '-');
    let neg = x_start < s.len() && s[x_start] == '-';
    let ds: usize = if signed {
        x_start + 1
    } else {
        x_start
    };
    proof {
        if x_start < s.len() {
            assert(x[0] == s@[x_start as int]);
        }
        assert(unsigned_part(x) =~= s@.subrange(ds as int, s.len() as int));
    }
    let ok = ds < s.len() && range_all_digits(s, ds, s.len());
    (ok, neg, ds)
}

/// Reads the number that `s` holds.
pub fn parse_decimal(s: &Vec<char>) -> (r: Decimal)
    ensures
        r == decimal_of(s@),
{
    let start: usize = if s.len() > 0 && (s[0] == '+' || s[0] == '-') {
        1
    } else {
        0
    };
    let (ei, k, frac_start) = mantissa_bounds(s, start);
    let (exp_ok, exp_neg, ds) = read_exponent(s, ei);
    let ok = (k - start) + (ei - frac_start) > 0 && range_all_digits(s, start, k)
        && range_all_digits(s, frac_start, ei) && exp_ok;
    if !ok {
        let inf: [char; 3] = ['i', 'n', 'f'];
        let nan: [char; 3] = ['n', 'a', 'n'];
        let infinity: [char; 8] = ['i', 'n', 'f', 'i', 'n', 'i', 't', 'y'];
        let w1 = matches_word(s, start, inf.as_slice());
        let w2 = matches_word(s, start, infinity.as_slice());
        let w3 = matches_word(s, start, nan.as_slice());
        proof {
            assert(inf@ =~= seq!['i', 'n', 'f']);
            assert(nan@ =~= seq!['n', 'a', 'n']);
            assert(infinity@ =~= seq!['i', 'n', 'f', 'i', 'n', 'i', 't', 'y']);
        }
        if w1 || w2 || w3 {
            return Decimal::NonFinite;
        } else {
            return Decimal::Malformed;
        }
    }
    let int_part = crate::utils::sub_chars(s, start, k);
    let frac_part = crate::utils::sub_chars(s, frac_start, ei);
    let mut g = int_part;
    push_chars(&mut g, &frac_part);
    let ghost gs = mantissa_digits(s@);
    proof {
        lemma_concat_digits(int_digits(s@), frac_digits(s@));
    }
    assert(g@ == gs);
    let zero = range_all_zeros(&g, 0, g.len());
    assert(g@.subrange(0, g.len() as int) =~= g@);
    let negative = start == 1 && s[0] == '-' && !zero;
    assert(negative == is_negative_text(s@));
    if zero {
        proof {
            lemma_zero_magnitude(gs, point(s@));
        }
        return Decimal::Finite { negative, tenths: 0 };
    }
    let il: usize = k - start;
    let exp_limit: u128 = s.len() as u128 + 40;
    let e: u128 = match range_value(s, ds, s.len(), exp_limit) {
        Some(e) => e,
        None => {
            if exp_neg {
                proof {
                    assert(point(s@) < 0);
                    assert(scaled(gs, point(s@)) =~= Seq::<char>::empty());
                }
                return Decimal::Finite { negative, tenths: 0 };
            } else {
                proof {
                    lemma_far_shift(gs, (point(s@) - gs.len()) as nat);
                }
                return Decimal::NonFinite;
            }
        },
    };
    let p: i128 = if exp_neg {
        il as i128 + 1 - e as i128
    } else {
        il as i128 + 1 + e as i128
    };
    assert(p == point(s@));
    match scaled_magnitude(&g, p) {
        Some(v) => Decimal::Finite { negative, tenths: v },
        None => Decimal::NonFinite,
    }
}

/// The digits `g`, `p` of them before the tenths' point, in tenths rounded
/// half up; `None` beyond `MAX_TENTHS`.
fn scaled_magnitude(g: &Vec<char>, p: i128) -> (r: Option<u64>)
    requires
        all_digits(g@),
        !all_zeros(g@),
    ensures
        r is Some <==> magnitude_at(g@, p as int) <= MAX_TENTHS,
        r is Some ==> r->0 == magnitude_at(g@, p as int),
{
    let gl: usize = g.len();
    if p >= gl as i128 {
        let shift: i128 = p - gl as i128;
        if shift >= 20 {
            proof {
                lemma_far_shift(g@, shift as nat);
            }
            return None;
        }
        let z = zeros_vec(shift as usize);
        let mut h = g.clone();
        push_chars(&mut h, &z);
        assert(h@ == scaled(g@, p as int));
        assert(h@.subrange(0, h.len() as int) =~= h@);
        assert(all_digits(h@)) by {
            assert forall|q: int| 0 <= q < h@.len() implies is_digit(#[trigger] h@[q]) by {
                if q < g@.len() {
                    assert(h@[q] == g@[q]);
                } else {
                    assert(h@[q] == zeros(shift as nat)[q - g@.len()]);
                }
            }
        }
        match range_value(&h, 0, h.len(), MAX_TENTHS as u128) {
            Some(v) => Some(v as u64),
            None => None,
        }
    } else if p <= 0 {
        let up = p == 0 && g[0] >= '5';
        proof {
            assert(scaled(g@, p as int) =~= Seq::<char>::empty());
        }
        if up {
            Some(1)
        } else {
            Some(0)
        }
    } else {
        let pu = p as usize;
        let h = crate::utils::sub_chars(g, 0, pu);
        assert(h@ == scaled(g@, p as int));
        assert(h@.subrange(0, h.len() as int) =~= h@);
        assert(all_digits(h@)) by {
            assert forall|q: int| 0 <= q < h@.len() implies is_digit(#[trigger] h@[q]) by {
                assert(h@[q] == g@[q]);
            }
        }
        assert(is_digit(g@[pu as int]));
        let up: u128 = if (g[pu] as u32 - '0' as u32) >= 5 {
            1
        } else {
            0
        };
        match range_value(&h, 0, h.len(), MAX_TENTHS as u128) {
            Some(v) => {
                if v + up > MAX_TENTHS as u128 {
                    None
                } else {
                    Some((v + up) as u64)
                }
            },
            None => None,
        }
    }
}

/// The decimal digits of `n`, without leading zeros.
pub open spec fn nat_digits(n: nat) -> Seq<char>
    decreases n,
{
    if n < 10 {
        seq![digit_char(n)]
    } else {
        nat_digits(n / 10) + seq![digit_char(n % 10)]
    }
}

/// `t` tenths written with one decimal place, as `{:.1}` writes `t / 10`.
pub open spec fn tenths_text(t: int) -> Seq<char> {
    let m: nat = if t < 0 {
        (-t) as nat
    } else {
        t as nat
    };
    let sign: Seq<char> = if t < 0 {
        seq!['-']
    } else {
        Seq::empty()
    };
    sign + nat_digits(m / 10) + seq!['.', digit_char(m % 10)]
}

fn digit_to_char(d: u64) -> (c: char)
    requires
        d < 10,
    ensures
        c == digit_char(d as nat),
{
    if d == 0 {
        '0'
    } else if d == 1 {
        '1'
    } else if d == 2 {
        '2'
    } else if d == 3 {
        '3'
    } else if d == 4 {
        '4'
    } else if d == 5 {
        '5'
    } else if d == 6 {
        '6'
    } else if d == 7 {
        '7'
    } else if d == 8 {
        '8'
    } else {
        '9'
    }
}

/// Appends the decimal digits of `n` to `out`.
pub fn push_digits(n: u64, out: &mut Vec<char>)
    ensures
        final(out)@ == old(out)@ + nat_digits(n as nat),
    decreases n,
{
    if n >= 10 {
        push_digits(n / 10, out);
    }
    out.push(digit_to_char(n % 10));
    proof {
        assert(final(out)@ =~= old(out)@ + nat_digits(n as nat));
    }
}

/// Appends `t` tenths written with one decimal place to `out`.
pub fn push_tenths(t: i64, out: &mut Vec<char>)
    ensures
        final(out)@ == old(out)@ + tenths_text(t as int),
{
    let m: u64 = if t < 0 {
        out.push('-');
        (0 - (t as i128)) as u64
    } else {
        t as u64
    };
    push_digits(m / 10, out);
    out.push('.');
    out.push(digit_to_char(m % 10));
    proof {
        assert(final(out)@ =~= old(out)@ + tenths_text(t as int));
    }
}

pub proof fn lemma_digit_char(d: nat)
    requires
        d < 10,
    ensures
        is_digit(digit_char(d)),
        digit_value(digit_char(d)) == d,
{
}

pub proof fn lemma_nat_digits(n: nat)
    ensures
        nat_digits(n).len() > 0,
        all_digits(nat_digits(n)),
        digits_value(nat_digits(n)) == n,
        forall|i: int| 0 <= i < nat_digits(n).len() ==> #[trigger] nat_digits(n)[i] != '.',
        forall|i: int| 0 <= i < nat_digits(n).len() ==> #[trigger] nat_digits(n)[i] != ' ',
        forall|i: int| 0 <= i < nat_digits(n).len() ==> #[trigger] nat_digits(n)[i] != '\n',
    decreases n,
{
    lemma_digit_char(n % 10);
    let s = nat_digits(n);
    if n >= 10 {
        lemma_nat_digits(n / 10);
        assert(s.drop_last() =~= nat_digits(n / 10));
        assert(s.last() == digit_char(n % 10));
        assert(digits_value(s) == digits_value(s.drop_last()) * 10 + digit_value(s.last()));
        assert(n == (n / 10) * 10 + n % 10);
    } else {
        assert(s.drop_last() =~= Seq::<char>::empty());
        assert(digits_value(s) == digits_value(s.drop_last()) * 10 + digit_value(s.last()));
    }
}

/// Writing tenths and reading them back gives the same number.
pub proof fn lemma_tenths_round_trip(t: int)
    requires
        0 <= t <= MAX_TENTHS,
    ensures
        decimal_of(tenths_text(t)) == (Decimal::Finite { negative: false, tenths: t as u64 }),
{
    let s = tenths_text(t);
    let d = nat_digits((t / 10) as nat);
    let last = digit_char((t % 10) as nat);
    lemma_nat_digits((t / 10) as nat);
    lemma_digit_char((t % 10) as nat);
    assert(s =~= d + seq!['.', last]);
    assert(s[0] == d[0]);
    assert(sign_len(s) == 0);
    let u = unsigned_part(s);
    assert(u =~= s);
    assert forall|i: int| 0 <= i < u.len() implies u[i] != 'e' && u[i] != 'E' by {
        if i < d.len() {
            assert(u[i] == d[i]);
        }
    }
    lemma_first_of_is(u, 'e', 'E', u.len() as int);
    assert(mantissa(s) =~= s);
    assert(exponent_text(s) is None);
    assert forall|i: int| 0 <= i < d.len() implies u[i] != '.' && u[i] != '.' by {
        assert(u[i] == d[i]);
    }
    lemma_first_of_is(u, '.', '.', d.len() as int);
    assert(int_digits(s) =~= d);
    assert(frac_digits(s) =~= seq![last]);
    assert(all_digits(seq![last]));
    assert(is_decimal_text(s));
    let g = mantissa_digits(s);
    assert(g =~= d.push(last));
    assert(point(s) == g.len());
    assert(scaled(g, point(s)) =~= g);
    assert(g.drop_last() =~= d);
    assert(magnitude_tenths(s) == t);
    assert(!is_negative_text(s));
}

/// An integer in decimal, with a minus sign when negative.
pub open spec fn int_text(i: int) -> Seq<char> {
    if i < 0 {
        seq!['-'] + nat_digits((-i) as nat)
    } else {
        nat_digits(i as nat)
    }
}

/// Appends `i` in decimal to `out`.
pub fn push_int(i: i64, out: &mut Vec<char>)
    ensures
        final(out)@ == old(out)@ + int_text(i as int),
{
    if i < 0 {
        out.push('-');
        push_digits((0 - (i as i128)) as u64, out);
    } else {
        push_digits(i as u64, out);
    }
    proof {
        assert(final(out)@ =~= old(out)@ + int_text(i as int));
    }
}

} // verus!
