//! Numbers as text.

use vstd::prelude::*;

use crate::text;

verus! {

/// The decimal digit of `d`.
pub open spec fn digit(d: nat) -> char {
    (48 + d) as char
}

/// `n` in decimal, without leading zeros.
pub open spec fn decimal(n: nat) -> Seq<char>
    decreases n,
{
    if n < 10 {
        seq![digit(n)]
    } else {
        decimal(n / 10).push(digit(n % 10))
    }
}

fn digit_char(d: u8) -> (c: char)
    requires
        d < 10,
    ensures
        c == digit(d as nat),
{
    (48 + d) as char
}

/// Ten to the power `k`.
pub open spec fn power_of_ten(k: nat) -> nat
    decreases k,
{
    if k == 0 {
        1
    } else {
        10 * power_of_ten((k - 1) as nat)
    }
}

/// A number below ten to the power `k` has at most `k` digits.
pub proof fn lemma_decimal_len(n: nat, k: nat)
    requires
        n < power_of_ten(k),
        k > 0,
    ensures
        1 <= decimal(n).len() <= k,
    decreases n,
{
    if n >= 10 {
        lemma_decimal_len(n / 10, (k - 1) as nat);
    }
}

/// `n` in decimal.
pub fn decimal_wide(n: u128) -> (r: Vec<char>)
    ensures
        r@ == decimal(n as nat),
        1 <= r.len() <= 39,
    decreases n,
{
    proof {
        reveal_with_fuel(power_of_ten, 40);
        lemma_decimal_len(n as nat, 39);
    }
    let mut r: Vec<char> = Vec::new();
    if n >= 10 {
        r = decimal_wide(n / 10);
    }
    let d: u8 = (n % 10) as u8;
    r.push(digit_char(d));
    assert(n < 10 ==> r@ =~= seq![digit(n as nat)]);
    r
}

/// `n` in decimal.
pub fn decimal_of(n: usize) -> (r: Vec<char>)
    ensures
        r@ == decimal(n as nat),
        1 <= r.len() <= 39,
{
    decimal_wide(n as u128)
}

/// The lower-case hexadecimal digit of `d`.
pub open spec fn hex_digit(d: nat) -> char {
    if d < 10 {
        (48 + d) as char
    } else {
        (87 + d) as char
    }
}

/// Sixteen to the power `k`.
pub open spec fn power_of_sixteen(k: nat) -> nat
    decreases k,
{
    if k == 0 {
        1
    } else {
        16 * power_of_sixteen((k - 1) as nat)
    }
}

/// The last `width` hexadecimal digits of `n`.
pub open spec fn hex(n: nat, width: nat) -> Seq<char>
    decreases width,
{
    if width == 0 {
        Seq::empty()
    } else {
        hex(n / 16, (width - 1) as nat).push(hex_digit(n % 16))
    }
}

/// The last `width` hexadecimal digits of `n`.
pub fn hex_of(n: u64, width: usize) -> (r: Vec<char>)
    ensures
        r@ == hex(n as nat, width as nat),
    decreases width,
{
    if width == 0 {
        return Vec::new();
    }
    let mut r = hex_of(n / 16, width - 1);
    let d: u8 = (n % 16) as u8;
    let c: char = if d < 10 {
        (48 + d) as char
    } else {
        (87 + d) as char
    };
    r.push(c);
    r
}

pub open spec fn is_hex_digit(c: char) -> bool {
    ('0' <= c <= '9') || ('a' <= c <= 'f')
}

pub open spec fn is_decimal_digit(c: char) -> bool {
    '0' <= c <= '9'
}

/// `hex` gives `width` characters, each a hexadecimal digit.
pub proof fn lemma_hex_digits(n: nat, width: nat)
    ensures
        hex(n, width).len() == width,
        forall|i: int| 0 <= i < width ==> is_hex_digit(#[trigger] hex(n, width)[i]),
    decreases width,
{
    if width > 0 {
        lemma_hex_digits(n / 16, (width - 1) as nat);
    }
}

/// The number that the decimal digits `s` write.
pub open spec fn digits_value(s: Seq<char>) -> nat
    decreases s.len(),
{
    if s.len() == 0 {
        0
    } else {
        digits_value(s.drop_last()) * 10 + (s.last() as nat - 48) as nat
    }
}

/// `s` without one leading plus sign.
pub open spec fn unsigned(s: Seq<char>) -> Seq<char> {
    if s.len() > 0 && s[0] == '+' {
        s.skip(1)
    } else {
        s
    }
}

pub open spec fn all_digits(s: Seq<char>) -> bool {
    forall|i: int| 0 <= i < s.len() ==> is_decimal_digit(#[trigger] s[i])
}

/// The number of at most `max` that `s` writes in decimal, with an optional plus sign.
pub open spec fn parsed(s: Seq<char>, max: nat) -> Option<nat> {
    let body = unsigned(s);
    if body.len() > 0 && all_digits(body) && digits_value(body) <= max {
        Some(digits_value(body))
    } else {
        None
    }
}

proof fn lemma_digits_value_grows(s: Seq<char>, n: int)
    requires
        0 <= n <= s.len(),
    ensures
        digits_value(s.take(n)) <= digits_value(s),
    decreases s.len() - n,
{
    if n < s.len() {
        lemma_digits_value_grows(s, n + 1);
        assert(s.take(n + 1).drop_last() == s.take(n));
    } else {
        assert(s.take(n) == s);
    }
}

/// Reads a decimal number of at most `max`.
pub fn parse_decimal(s: &Vec<char>, max: u64) -> (r: Option<u64>)
    ensures
        r is Some <==> parsed(s@, max as nat) is Some,
        r matches Some(v) ==> parsed(s@, max as nat) == Some(v as nat),
{
    let start: usize = if s.len() > 0 && s[0] == '+' {
        1
    } else {
        0
    };
    let ghost body = unsigned(s@);
    assert(body == s@.skip(start as int));
    if start == s.len() {
        return None;
    }
    let mut v: u64 = 0;
    let mut i: usize = start;
    assert(body.take(0) == Seq::<char>::empty());
    while i < s.len()
        invariant
            start <= i <= s.len(),
            body == s@.skip(start as int),
            body == unsigned(s@),
            v == digits_value(body.take(i - start)),
            v <= max,
            forall|j: int| 0 <= j < i - start ==> is_decimal_digit(body[j]),
        decreases s.len() - i,
    {
        let c = s[i];
        assert(body[i - start] == c);
        if !('0' <= c && c <= '9') {
            return None;
        }
        let d: u64 = (c as u32 - 48) as u64;
        assert(body.take(i - start + 1).drop_last() == body.take(i - start));
        let wide: u128 = v as u128 * 10 + d as u128;
        assert(wide == digits_value(body.take(i - start + 1)));
        if wide > max as u128 {
            proof {
                lemma_digits_value_grows(body, i - start + 1);
            }
            return None;
        }
        v = wide as u64;
        i += 1;
    }
    assert(body.take(body.len() as int) == body);
    Some(v)
}

/// The quotient `a / b`, rounded to the nearest whole number, a tie to the even one.
pub open spec fn round_half_even(a: nat, b: nat) -> nat {
    let q = a / b;
    let r = a % b;
    if 2 * r < b || (2 * r == b && q % 2 == 0) {
        q
    } else {
        q + 1
    }
}

/// One more than the largest whole number below which a double holds every whole number.
pub open spec fn two53() -> nat {
    0x20_0000_0000_0000
}

/// The distance between neighbouring doubles around `n`, where that is at least `g`.
pub open spec fn spacing(n: nat, g: nat) -> nat
    decreases n + 1 - g,
{
    if g == 0 || n < two53() * g {
        g
    } else {
        spacing(n, 2 * g)
    }
}

/// The double nearest to the whole number `n`.
pub open spec fn nearest_double(n: nat) -> nat {
    round_half_even(n, spacing(n, 1)) * spacing(n, 1)
}

/// `p` and `m`, both doubled as long as `p` stays below `limit`.
pub open spec fn scaled(p: nat, limit: nat, m: nat) -> (nat, nat)
    decreases limit - p,
{
    if p == 0 || 2 * p >= limit {
        (p, m)
    } else {
        scaled(2 * p, limit, 2 * m)
    }
}

/// The tenths of `n / unit`, computed as a double and then rounded to one decimal place.
pub open spec fn tenths(n: nat, unit: nat) -> nat {
    let (p, m) = scaled(nearest_double(n), two53() * unit, 1);
    round_half_even(10 * round_half_even(p, unit), m)
}

/// `n / unit` with one decimal place.
pub open spec fn one_decimal(n: nat, unit: nat) -> Seq<char> {
    decimal(tenths(n, unit) / 10) + "."@ + decimal(tenths(n, unit) % 10)
}

fn divide_half_even(a: u128, b: u128) -> (r: u128)
    requires
        0 < b <= 0x100_0000_0000_0000_0000_0000,
        a <= 0x100_0000_0000_0000_0000_0000,
    ensures
        r == round_half_even(a as nat, b as nat),
        r <= a + 1,
{
    let q: u128 = a / b;
    let r: u128 = a % b;
    assert(q <= a) by (nonlinear_arith)
        requires
            q == a / b,
            b > 0,
    ;
    if 2 * r < b || (2 * r == b && q % 2 == 0) {
        q
    } else {
        q + 1
    }
}

/// The double nearest to `n`.
pub fn to_double(n: u64) -> (r: u128)
    ensures
        r == nearest_double(n as nat),
        n > 0 ==> r > 0,
        r <= 0x2_0000_0000_0000_0000,
{
    let wide: u128 = n as u128;
    let mut g: u128 = 1;
    while wide >= 0x20_0000_0000_0000 * g
        invariant
            1 <= g <= 0x1000,
            wide <= u64::MAX,
            spacing(wide as nat, 1) == spacing(wide as nat, g as nat),
            g > 1 ==> wide >= 0x10_0000_0000_0000 * g,
        decreases 0x2000 - g,
    {
        g = 2 * g;
    }
    let q = divide_half_even(wide, g);
    assert(q * g <= 0x2_0000_0000_0000_0000 && (n > 0 ==> q * g > 0)) by (nonlinear_arith)
        requires
            q == round_half_even(wide as nat, g as nat),
            1 <= g <= 0x1000,
            wide == n,
            g > 1 ==> wide >= 0x10_0000_0000_0000 * g,
    {
        assert(q <= wide / g + 1);
        assert((wide / g) * g <= wide);
        assert(q * g <= wide + g);
        assert(q >= wide / g);
    }
    q * g
}

/// `n / unit` with one decimal place.
pub fn one_decimal_of(n: u64, unit: u64) -> (r: Vec<char>)
    requires
        0 < unit <= 1_000_000,
    ensures
        r@ == one_decimal(n as nat, unit as nat),
        1 <= r.len() <= 79,
{
    let limit: u128 = 0x20_0000_0000_0000 * (unit as u128);
    let mut p: u128 = to_double(n);
    let mut m: u128 = 1;
    while p != 0 && 2 * p < limit
        invariant
            p <= 0x2_0000_0000_0000_0000 || p < limit,
            limit == two53() * unit,
            0 < unit <= 1_000_000,
            1 <= m,
            m <= p || p == 0,
            m <= p + 1,
            scaled(nearest_double(n as nat), limit as nat, 1) == scaled(
                p as nat,
                limit as nat,
                m as nat,
            ),
        decreases limit - p,
    {
        p = 2 * p;
        m = 2 * m;
    }
    let q = divide_half_even(p, unit as u128);
    let t = divide_half_even(10 * q, m);
    let mut r = decimal_wide(t / 10);
    proof {
        reveal_strlit(".");
    }
    crate::text::extend_str(&mut r, ".");
    crate::text::extend(&mut r, &decimal_wide(t % 10));
    r
}

/// The sum of the first `n` of `v`.
pub open spec fn sum(v: Seq<usize>, n: int) -> nat
    decreases n,
{
    if n <= 0 || n > v.len() {
        0
    } else {
        sum(v, n - 1) + v[n - 1] as nat
    }
}

/// The sum of all of `v`.
pub open spec fn total(v: Seq<usize>) -> nat {
    sum(v, v.len() as int)
}

/// The sum of a part is at most the sum of the whole.
pub proof fn lemma_sum_grows(v: Seq<usize>, n: int, m: int)
    requires
        0 <= n <= m <= v.len(),
    ensures
        sum(v, n) <= sum(v, m),
    decreases m - n,
{
    if n < m {
        lemma_sum_grows(v, n, m - 1);
    }
}

/// The sum of `v`, if it fits.
pub fn add_up(v: &Vec<usize>) -> (r: Option<usize>)
    ensures
        r is Some <==> total(v@) <= usize::MAX,
        r matches Some(t) ==> t == total(v@),
{
    let mut t: usize = 0;
    let mut i: usize = 0;
    while i < v.len()
        invariant
            i <= v.len(),
            t == sum(v@, i as int),
        decreases v.len() - i,
    {
        proof {
            lemma_sum_grows(v@, i + 1, v@.len() as int);
        }
        match t.checked_add(v[i]) {
            Some(next) => {
                t = next;
            },
            None => {
                return None;
            },
        }
        i += 1;
    }
    Some(t)
}

/// The largest of `least` and the first `n` of `v`.
pub open spec fn widest(v: Seq<nat>, n: int, least: nat) -> nat
    decreases n,
{
    if n <= 0 || n > v.len() {
        least
    } else if v[n - 1] > widest(v, n - 1, least) {
        v[n - 1]
    } else {
        widest(v, n - 1, least)
    }
}

proof fn lemma_sum_insert(v: Seq<usize>, k: int, x: usize, n: int)
    requires
        0 <= k <= v.len(),
        0 <= n <= v.len() + 1,
    ensures
        sum(v.insert(k, x), n) == (if n <= k {
            sum(v, n)
        } else {
            sum(v, n - 1) + x as nat
        }),
    decreases n,
{
    if n > 0 {
        lemma_sum_insert(v, k, x, n - 1);
    }
}

/// An insertion adds what it inserts, wherever that is.
pub proof fn lemma_total_insert(v: Seq<usize>, k: int, x: usize)
    requires
        0 <= k <= v.len(),
    ensures
        total(v.insert(k, x)) == total(v) + x as nat,
{
    lemma_sum_insert(v, k, x, (v.len() + 1) as int);
}

/// `widest` is at least what it is the largest of.
pub proof fn lemma_widest(v: Seq<nat>, n: int, least: nat)
    requires
        0 <= n <= v.len(),
    ensures
        least <= widest(v, n, least),
        forall|i: int| 0 <= i < n ==> #[trigger] v[i] <= widest(v, n, least),
    decreases n,
{
    if n > 0 {
        lemma_widest(v, n - 1, least);
    }
}

/// Digits take one byte each.
pub proof fn lemma_decimal_bytes(n: nat)
    ensures
        text::byte_len(decimal(n)) == decimal(n).len(),
    decreases n,
{
    if n >= 10 {
        lemma_decimal_bytes(n / 10);
        assert(decimal(n).drop_last() =~= decimal(n / 10));
        assert(decimal(n).last() == digit(n % 10));
        assert(text::char_bytes(digit(n % 10)) == 1);
    } else {
        assert(decimal(n).drop_last() =~= Seq::<char>::empty());
        assert(decimal(n).last() == digit(n));
        assert(text::char_bytes(digit(n)) == 1);
        assert(text::byte_len(Seq::<char>::empty()) == 0);
    }
}

/// A number in decimal is digits and nothing else.
pub proof fn lemma_decimal_lacks(n: nat, c: char)
    requires
        !is_decimal_digit(c),
    ensures
        text::lacks(decimal(n), c),
    decreases n,
{
    if n >= 10 {
        lemma_decimal_lacks(n / 10, c);
    }
}

/// Different numbers differ in decimal.
pub proof fn lemma_decimal_distinct(a: nat, b: nat)
    requires
        decimal(a) == decimal(b),
    ensures
        a == b,
    decreases a,
{
    assert(decimal(a).last() == digit(a % 10));
    assert(decimal(b).last() == digit(b % 10));
    assert(a % 10 == b % 10);
    if a >= 10 && b >= 10 {
        assert(decimal(a).drop_last() =~= decimal(a / 10));
        assert(decimal(b).drop_last() =~= decimal(b / 10));
        lemma_decimal_distinct(a / 10, b / 10);
    } else if a >= 10 {
        assert(decimal(a / 10).len() > 0);
    } else if b >= 10 {
        assert(decimal(b / 10).len() > 0);
    }
}

/// Different numbers of at most `width` hexadecimal digits differ in hexadecimal.
pub proof fn lemma_hex_distinct(a: nat, b: nat, width: nat)
    requires
        hex(a, width) == hex(b, width),
        a < power_of_sixteen(width),
        b < power_of_sixteen(width),
    ensures
        a == b,
    decreases width,
{
    if width > 0 {
        let w = (width - 1) as nat;
        assert(hex(a, width).last() == hex_digit(a % 16));
        assert(hex(b, width).last() == hex_digit(b % 16));
        assert(hex(a, width).drop_last() =~= hex(a / 16, w));
        assert(hex(b, width).drop_last() =~= hex(b / 16, w));
        assert(a % 16 == b % 16);
        lemma_hex_distinct(a / 16, b / 16, w);
    }
}

/// Sums add up: nothing is 0, one number is itself, and the sum of two lists put together is
/// the sum of their sums.
pub proof fn lemma_total_adds(a: Seq<usize>, b: Seq<usize>, x: usize)
    ensures
        total(Seq::empty()) == 0,
        total(seq![x]) == x,
        total(a + b) == total(a) + total(b),
    decreases b.len(),
{
    reveal_with_fuel(sum, 2);
    if b.len() == 0 {
        assert(a + b =~= a);
    } else {
        let y = b.last();
        lemma_total_adds(a, b.drop_last(), x);
        assert(a + b =~= (a + b.drop_last()).push(y));
        lemma_total_push(a + b.drop_last(), y);
        lemma_total_push(b.drop_last(), y);
        assert(b.drop_last().push(y) =~= b);
    }
}

proof fn lemma_sum_prefix(v: Seq<usize>, x: usize, n: int)
    requires
        0 <= n <= v.len(),
    ensures
        sum(v.push(x), n) == sum(v, n),
    decreases n,
{
    if n > 0 {
        lemma_sum_prefix(v, x, n - 1);
    }
}

/// One more number adds itself.
pub proof fn lemma_total_push(v: Seq<usize>, x: usize)
    ensures
        total(v.push(x)) == total(v) + x,
{
    lemma_sum_prefix(v, x, v.len() as int);
}

/// A sum is what adding one number after the other gives.
pub proof fn lemma_total_is_fold(v: Seq<usize>)
    ensures
        total(v) == v.fold_left(0int, |t: int, x: usize| t + x),
    decreases v.len(),
{
    reveal(Seq::fold_left);
    if v.len() > 0 {
        lemma_total_is_fold(v.drop_last());
        lemma_total_push(v.drop_last(), v.last());
        assert(v.drop_last().push(v.last()) =~= v);
    }
}

/// `widest` is one of the numbers that it is the largest of.
pub proof fn lemma_widest_is_one(v: Seq<nat>, n: int, least: nat)
    requires
        0 <= n <= v.len(),
    ensures
        widest(v, n, least) == least || exists|i: int|
            0 <= i < n && #[trigger] v[i] == widest(v, n, least),
    decreases n,
{
    if n > 0 {
        lemma_widest_is_one(v, n - 1, least);
        assert(v[n - 1] == v[n - 1]);
    }
}

/// What is written in decimal is read back as the same number.
pub proof fn lemma_decimal_value(n: nat)
    ensures
        digits_value(decimal(n)) == n,
        decimal(n).len() > 0,
        forall|i: int| 0 <= i < decimal(n).len() ==> is_decimal_digit(#[trigger] decimal(n)[i]),
    decreases n,
{
    reveal_with_fuel(digits_value, 2);
    if n >= 10 {
        lemma_decimal_value(n / 10);
        assert(decimal(n).drop_last() =~= decimal(n / 10));
    } else {
        assert(decimal(n).drop_last() =~= Seq::<char>::empty());
    }
}

/// A number that is written in decimal, with or without a plus sign, is read as itself, if it
/// is not too large.
pub proof fn lemma_parsed_decimal(n: nat, max: nat)
    ensures
        n <= max ==> parsed(decimal(n), max) == Some(n) && parsed(seq!['+'] + decimal(n), max)
            == Some(n),
        n > max ==> parsed(decimal(n), max) is None,
{
    lemma_decimal_value(n);
    assert(is_decimal_digit(decimal(n)[0]));
    assert((seq!['+'] + decimal(n)).skip(1) =~= decimal(n));
    assert(all_digits(decimal(n)));
}

/// A text is no number if anything but a plus sign at its start is no digit, or if it has no
/// digit.
pub proof fn lemma_not_parsed(s: Seq<char>, k: int, max: nat)
    ensures
        0 < k < s.len() && !is_decimal_digit(s[k]) ==> parsed(s, max) is None,
        s.len() > 0 && s[0] != '+' && !is_decimal_digit(s[0]) ==> parsed(s, max) is None,
        s.len() == 0 ==> parsed(s, max) is None,
        s == seq!['+'] ==> parsed(s, max) is None,
{
    let body = unsigned(s);
    if 0 < k < s.len() && !is_decimal_digit(s[k]) {
        if s[0] == '+' {
            assert(body[k - 1] == s[k]);
        } else {
            assert(body[k] == s[k]);
        }
    } else if s.len() > 0 && s[0] != '+' && !is_decimal_digit(s[0]) {
        assert(body[0] == s[0]);
    }
}

proof fn lemma_rounded(a: nat, b: nat)
    requires
        b > 0,
    ensures
        2 * (round_half_even(a, b) * b - a) <= b,
        2 * (a - round_half_even(a, b) * b) <= b,
{
    let q = a / b;
    let r = a % b;
    vstd::arithmetic::div_mod::lemma_fundamental_div_mod(a as int, b as int);
    assert(a == b * q + r);
    assert(q * b == b * q) by (nonlinear_arith);
    assert((q + 1) * b == b * q + b) by (nonlinear_arith);
}

proof fn lemma_scaled(p: nat, limit: nat, m: nat)
    requires
        p > 0,
        m > 0,
    ensures
        scaled(p, limit, m).0 * m == scaled(p, limit, m).1 * p,
        2 * scaled(p, limit, m).0 >= limit,
        scaled(p, limit, m).1 > 0,
    decreases limit - p,
{
    let (x, y) = scaled(p, limit, m);
    if 2 * p >= limit {
        assert(p * m == m * p) by (nonlinear_arith);
    } else {
        lemma_scaled(2 * p, limit, 2 * m);
        assert(x * m == y * p) by (nonlinear_arith)
            requires
                x * (2 * m) == y * (2 * p),
        ;
    }
}

/// A whole number that a double holds is its own nearest double.
pub proof fn lemma_nearest_double(n: nat)
    ensures
        n < two53() ==> nearest_double(n) == n,
{
    if n < two53() {
        assert(spacing(n, 1) == 1);
        assert(n / 1 == n && n % 1 == 0);
    }
}

/// A quotient with one decimal place is as near to the quotient as one decimal place allows.
pub proof fn lemma_tenths(n: nat, unit: nat)
    requires
        n < 0x1_0000_0000_0000,
        unit > 0,
    ensures
        2 * (tenths(n, unit) * unit - 10 * n) <= unit,
        2 * (10 * n - tenths(n, unit) * unit) <= unit,
{
    let limit = two53() * unit;
    lemma_nearest_double(n);
    if n == 0 {
        assert(scaled(0, limit, 1) == (0nat, 1nat));
        assert(0nat / unit == 0 && 0nat % unit == 0) by (nonlinear_arith)
            requires
                unit > 0,
        ;
        assert(round_half_even(0, unit) == 0);
        assert(round_half_even(0, 1) == 0);
        assert(tenths(n, unit) == 0);
        assert(0 * unit == 0) by (nonlinear_arith);
    } else {
        assert(limit == 0x20_0000_0000_0000 * unit);
        lemma_scaled(n, limit, 1);
        let (p, m) = scaled(n, limit, 1);
        assert(p * 1 == p);
        let q = round_half_even(p, unit);
        let t = round_half_even(10 * q, m);
        lemma_rounded(p, unit);
        lemma_rounded(10 * q, m);
        assert(m > 10 * unit) by (nonlinear_arith)
            requires
                p == m * n,
                2 * p >= 0x20_0000_0000_0000 * unit,
                0 < n < 0x1_0000_0000_0000,
                unit > 0,
        ;
        let d = t * unit - 10 * n;
        let a = t * m - 10 * q;
        let b = q * unit - p;
        assert(m * d == a * unit + 10 * b) by (nonlinear_arith)
            requires
                d == t * unit - 10 * n,
                a == t * m - 10 * q,
                b == q * unit - p,
                p == m * n,
        ;
        assert(2 * (a * unit) <= m * unit && -(m * unit) <= 2 * (a * unit)) by (nonlinear_arith)
            requires
                2 * a <= m,
                -m <= 2 * a,
                unit > 0,
        ;
        assert(2 * d <= unit && -unit <= 2 * d) by (nonlinear_arith)
            requires
                2 * (m * d) <= m * unit + 10 * unit,
                -(m * unit + 10 * unit) <= 2 * (m * d),
                m > 10 * unit,
                unit > 0,
        ;
    }
}

}
