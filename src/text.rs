//! Decimal rendering and parsing of the numbers that node metadata carries as
//! strings, and small string helpers.
use vstd::prelude::*;

verus! {

/// One, in the fixed-point unit (millionths) used for fractions in `[0, 1]`.
pub const UNIT: u64 = 1_000_000;

pub open spec fn is_digit(c: char) -> bool {
    '0' <= c && c <= '9'
}

pub open spec fn digit_value(c: char) -> int {
    c as int - '0' as int
}

pub open spec fn digit_char(d: int) -> char {
    if d == 0 {
        '0'
    } else if d == 1 {
        '1'
    } else if d == 2 {
        '2'
    } else if d == 3 {
        '3'
    } else if d == 4 {
        '4'
    } else if d == 5 {
        '5'
    } else if d == 6 {
        '6'
    } else if d == 7 {
        '7'
    } else if d == 8 {
        '8'
    } else {
        '9'
    }
}

/// The usual decimal rendering of a natural number, without leading zeros.
pub open spec fn decimal_string(n: nat) -> Seq<char>
    decreases n,
{
    if n < 10 {
        seq![digit_char(n as int)]
    } else {
        decimal_string(n / 10).push(digit_char((n % 10) as int))
    }
}

/// The decimal rendering of an integer, with a leading `-` when negative.
pub open spec fn signed_string(n: int) -> Seq<char> {
    if n < 0 {
        seq!['-'] + decimal_string((-n) as nat)
    } else {
        decimal_string(n as nat)
    }
}

pub open spec fn all_digits(s: Seq<char>) -> bool {
    forall|i: int| 0 <= i < s.len() ==> is_digit(#[trigger] s[i])
}

/// The value of a string of decimal digits.
pub open spec fn decimal_value(s: Seq<char>) -> int
    decreases s.len(),
{
    if s.len() == 0 {
        0
    } else {
        decimal_value(s.drop_last()) * 10 + digit_value(s.last())
    }
}

/// An unsigned integer: an optional `+`, then one or more digits.
pub open spec fn parse_unsigned(s: Seq<char>) -> Option<int> {
    let d = if s.len() > 0 && s[0] == '+' {
        s.skip(1)
    } else {
        s
    };
    if d.len() > 0 && all_digits(d) {
        Some(decimal_value(d))
    } else {
        None
    }
}

/// A signed integer: a `-` then one or more digits, or an unsigned integer.
pub open spec fn parse_signed(s: Seq<char>) -> Option<int> {
    if s.len() > 0 && s[0] == '-' {
        let d = s.skip(1);
        if d.len() > 0 && all_digits(d) {
            Some(-decimal_value(d))
        } else {
            None
        }
    } else {
        parse_unsigned(s)
    }
}

fn digit_str(d: u64) -> (r: &'static str)
    requires
        d < 10,
    ensures
        r@ == seq![digit_char(d as int)],
{
    proof {
        reveal_strlit("0");
        reveal_strlit("1");
        reveal_strlit("2");
        reveal_strlit("3");
        reveal_strlit("4");
        reveal_strlit("5");
        reveal_strlit("6");
        reveal_strlit("7");
        reveal_strlit("8");
        reveal_strlit("9");
    }
    match d {
        0 => "0",
        1 => "1",
        2 => "2",
        3 => "3",
        4 => "4",
        5 => "5",
        6 => "6",
        7 => "7",
        8 => "8",
        _ => "9",
    }
}

/// Renders `n` in decimal.
pub fn format_u64(n: u64) -> (r: String)
    ensures
        r@ == decimal_string(n as nat),
    decreases n,
{
    if n < 10 {
        String::from_str(digit_str(n))
    } else {
        let mut s = format_u64(n / 10);
        s.append(digit_str(n % 10));
        s
    }
}

/// Renders `n` in decimal, with a leading `-` when negative.
pub fn format_i64(n: i64) -> (r: String)
    ensures
        r@ == signed_string(n as int),
{
    if n < 0 {
        let m: u64 = (-(n as i128)) as u64;
        let digits = format_u64(m);
        proof {
            reveal_strlit("-");
        }
        let s = String::from_str("-");
        s.concat(digits.as_str())
    } else {
        format_u64(n as u64)
    }
}

/// Whether `s` begins with `prefix`.
pub fn starts_with(s: &str, prefix: &str) -> (r: bool)
    ensures
        r == prefix@.is_prefix_of(s@),
{
    let n = s.unicode_len();
    let m = prefix.unicode_len();
    if m > n {
        return false;
    }
    let mut i: usize = 0;
    while i < m
        invariant
            m <= n,
            n == s@.len(),
            m == prefix@.len(),
            i <= m,
            forall|j: int| 0 <= j < i ==> prefix@[j] == s@[j],
        decreases m - i,
    {
        if s.get_char(i) != prefix.get_char(i) {
            return false;
        }
        i = i + 1;
    }
    true
}


/// Reads the digits of `s` from position `from` to its end.
fn digits_from(s: &str, from: usize) -> (r: Option<u64>)
    requires
        from <= s@.len(),
    ensures
        r is Some <==> (from < s@.len() && all_digits(s@.skip(from as int)) && decimal_value(
            s@.skip(from as int),
        ) <= u64::MAX),
        r is Some ==> r->0 == decimal_value(s@.skip(from as int)),
{
    let n = s.unicode_len();
    if from >= n {
        return None;
    }
    let mut acc: u64 = 0;
    let mut big = false;
    let mut i: usize = from;
    while i < n
        invariant
            n == s@.len(),
            from <= i <= n,
            all_digits(s@.subrange(from as int, i as int)),
            !big ==> acc == decimal_value(s@.subrange(from as int, i as int)),
            big ==> decimal_value(s@.subrange(from as int, i as int)) > u64::MAX,
        decreases n - i,
    {
        let c = s.get_char(i);
        let ghost prev = s@.subrange(from as int, i as int);
        let ghost next = s@.subrange(from as int, i + 1);
        assert(next.drop_last() =~= prev);
        if c < '0' || c > '9' {
            assert(s@.skip(from as int)[i - from] == c);
            return None;
        }
        let d = (c as u32 - '0' as u32) as u64;
        assert(d == digit_value(next.last()));
        assert(decimal_value(next) == decimal_value(prev) * 10 + d);
        if !big {
            if acc > (u64::MAX - d) / 10 {
                big = true;
            } else {
                acc = acc * 10 + d;
            }
        }
        i = i + 1;
        assert forall|j: int| 0 <= j < next.len() implies is_digit(#[trigger] next[j]) by {
            if j < prev.len() {
                assert(next[j] == prev[j]);
            }
        }
    }
    assert(s@.subrange(from as int, n as int) =~= s@.skip(from as int));
    if big {
        None
    } else {
        Some(acc)
    }
}

/// Parses an unsigned decimal integer, as `str::parse::<u64>` does.
pub fn parse_u64(s: &str) -> (r: Option<u64>)
    ensures
        r is Some <==> (parse_unsigned(s@) is Some && parse_unsigned(s@)->0 <= u64::MAX),
        r is Some ==> r->0 == parse_unsigned(s@)->0,
{
    let n = s.unicode_len();
    if n > 0 && s.get_char(0) == '+' {
        digits_from(s, 1)
    } else {
        assert(s@.skip(0) =~= s@);
        digits_from(s, 0)
    }
}

/// Parses a signed decimal integer, as `str::parse::<i64>` does.
pub fn parse_i64(s: &str) -> (r: Option<i64>)
    ensures
        r is Some <==> (parse_signed(s@) is Some && i64::MIN <= parse_signed(s@)->0 <= i64::MAX),
        r is Some ==> r->0 == parse_signed(s@)->0,
{
    let n = s.unicode_len();
    if n > 0 && s.get_char(0) == '-' {
        match digits_from(s, 1) {
            Some(v) => {
                if v <= 9223372036854775808 {
                    Some((-(v as i128)) as i64)
                } else {
                    None
                }
            },
            None => None,
        }
    } else {
        match parse_u64(s) {
            Some(v) => {
                if v <= 9223372036854775807 {
                    Some(v as i64)
                } else {
                    None
                }
            },
            None => None,
        }
    }
}


pub open spec fn pow10(k: nat) -> nat
    decreases k,
{
    if k == 0 {
        1
    } else {
        10 * pow10((k - 1) as nat)
    }
}

/// The number of digits that `t` begins with.
pub open spec fn digit_run(t: Seq<char>) -> nat
    decreases t.len(),
{
    if t.len() > 0 && is_digit(t[0]) {
        1 + digit_run(t.skip(1))
    } else {
        0
    }
}

/// The first `k` decimals of `b`, padded with zeros, as an integer.
pub open spec fn decimals_value(b: Seq<char>, k: nat) -> int
    decreases k,
{
    if k == 0 {
        0
    } else {
        decimals_value(b, (k - 1) as nat) * 10 + if k - 1 < b.len() {
            digit_value(b[k - 1])
        } else {
            0
        }
    }
}

/// The sign-free part of a number's text.
pub open spec fn unsigned_part(s: Seq<char>) -> Seq<char> {
    if s.len() > 0 && (s[0] == '-' || s[0] == '+') {
        s.skip(1)
    } else {
        s
    }
}

/// Whether `c` is the lowercase ASCII letter `l`, in either case.
pub open spec fn same_letter(c: char, l: char) -> bool {
    c == l || c as int + 32 == l as int
}

/// Whether `t` spells the lowercase word `w`, ignoring ASCII case.
pub open spec fn spells(t: Seq<char>, w: Seq<char>) -> bool {
    t.len() == w.len() && forall|i: int| 0 <= i < t.len() ==> same_letter(#[trigger] t[i], w[i])
}

/// The digit at position `i` of `d`, and 0 outside `d`.
pub open spec fn digit_at(d: Seq<char>, i: int) -> int {
    if 0 <= i < d.len() {
        digit_value(d[i])
    } else {
        0
    }
}

/// The `k` digits of `d` from position `p`, as an integer.
pub open spec fn digits_at(d: Seq<char>, p: int, k: nat) -> int
    decreases k,
{
    if k == 0 {
        0
    } else {
        digits_at(d, p, (k - 1) as nat) * 10 + digit_at(d, p + k - 1)
    }
}

/// Whether a digit of `d` before position `p` is not zero.
pub open spec fn whole_nonzero(d: Seq<char>, p: int) -> bool {
    exists|i: int| 0 <= i < d.len() && i < p && #[trigger] d[i] != '0'
}

/// The non-negative number with digits `d` and its point before position `p`,
/// in millionths, clamped to one; decimals past the sixth are dropped.
pub open spec fn millionths(d: Seq<char>, p: int) -> int {
    if whole_nonzero(d, p) {
        UNIT as int
    } else {
        digits_at(d, p, 6)
    }
}

/// A decimal number `digits[.digits][(e|E)[+|-]digits]` with at least one
/// digit before the exponent (either side of the point may be empty): its
/// digits, and the position of its point among them.
pub open spec fn decimal_number(t: Seq<char>) -> Option<(Seq<char>, int)> {
    let a = digit_run(t) as int;
    let r1 = t.skip(a);
    let has_dot = r1.len() > 0 && r1[0] == '.';
    let b = if has_dot {
        digit_run(r1.skip(1)) as int
    } else {
        0
    };
    let r2 = if has_dot {
        r1.skip(1).skip(b)
    } else {
        r1
    };
    let digits = t.take(a) + if has_dot {
        r1.skip(1).take(b)
    } else {
        Seq::empty()
    };
    if a + b == 0 {
        None
    } else if r2.len() == 0 {
        Some((digits, a))
    } else if r2[0] == 'e' || r2[0] == 'E' {
        match parse_signed(r2.skip(1)) {
            Some(x) => Some((digits, a + x)),
            None => None,
        }
    } else {
        None
    }
}

/// A fraction written as `str::parse::<f64>` reads a float (a sign, then a
/// decimal number, `inf`, `infinity` or `nan` in any case), in millionths of
/// one: negative values, `-inf` and `nan` give 0, values of one or more give
/// `UNIT`, and decimals past the sixth are dropped.
pub open spec fn parse_unit(s: Seq<char>) -> Option<int> {
    let neg = s.len() > 0 && s[0] == '-';
    let t = unsigned_part(s);
    if spells(t, "inf"@) || spells(t, "infinity"@) {
        Some(
            if neg {
                0
            } else {
                UNIT as int
            },
        )
    } else if spells(t, "nan"@) {
        Some(0)
    } else {
        match decimal_number(t) {
            Some(dp) => Some(
                if neg {
                    0
                } else {
                    millionths(dp.0, dp.1)
                },
            ),
            None => None,
        }
    }
}

/// The text of a fraction given in millionths: `1` from `UNIT` up, else `0.`
/// and six decimals.
pub open spec fn unit_string(v: nat) -> Seq<char> {
    if v >= UNIT {
        seq!['1']
    } else {
        seq!['0', '.'] + Seq::new(6, |i: int| digit_char(((v / pow10((5 - i) as nat)) % 10) as int))
    }
}

proof fn lemma_pow10_values()
    ensures
        pow10(0) == 1,
        pow10(1) == 10,
        pow10(2) == 100,
        pow10(3) == 1_000,
        pow10(4) == 10_000,
        pow10(5) == 100_000,
        pow10(6) == 1_000_000,
{
    reveal_with_fuel(pow10, 7);
}

proof fn lemma_digit_run(t: Seq<char>, k: int)
    requires
        0 <= k <= t.len(),
        forall|j: int| 0 <= j < k ==> is_digit(#[trigger] t[j]),
        k == t.len() || !is_digit(t[k]),
    ensures
        digit_run(t) == k,
    decreases k,
{
    if k > 0 {
        let u = t.skip(1);
        assert forall|j: int| 0 <= j < k - 1 implies is_digit(#[trigger] u[j]) by {
            assert(u[j] == t[j + 1]);
        }
        if k < t.len() {
            assert(u[k - 1] == t[k]);
        }
        lemma_digit_run(u, k - 1);
    }
}

proof fn lemma_digit_run_digits(t: Seq<char>)
    ensures
        digit_run(t) <= t.len(),
        forall|j: int| 0 <= j < digit_run(t) ==> is_digit(#[trigger] t[j]),
        digit_run(t) == t.len() || !is_digit(t[digit_run(t) as int]),
    decreases t.len(),
{
    if t.len() > 0 && is_digit(t[0]) {
        let u = t.skip(1);
        lemma_digit_run_digits(u);
        assert forall|j: int| 0 <= j < digit_run(t) implies is_digit(#[trigger] t[j]) by {
            if j > 0 {
                assert(t[j] == u[j - 1]);
            }
        }
        if digit_run(t) < t.len() {
            assert(t[digit_run(t) as int] == u[digit_run(u) as int]);
        }
    }
}

proof fn lemma_digits_at_zero(d: Seq<char>, p: int, k: nat)
    requires
        p >= d.len() || p + k <= 0,
    ensures
        digits_at(d, p, k) == 0,
    decreases k,
{
    if k > 0 {
        lemma_digits_at_zero(d, p, (k - 1) as nat);
    }
}

proof fn lemma_digits_at_bounds(d: Seq<char>, p: int, k: nat)
    requires
        all_digits(d),
    ensures
        0 <= digits_at(d, p, k) < pow10(k),
    decreases k,
{
    if k > 0 {
        lemma_digits_at_bounds(d, p, (k - 1) as nat);
        let i = p + k - 1;
        if 0 <= i < d.len() {
            assert(is_digit(d[i]));
        }
    }
}

/// Two positions of the point far outside the digits give the same value.
proof fn lemma_far_point(d: Seq<char>, p: int, q: int)
    requires
        (p >= d.len() && q >= d.len()) || (p <= -6 && q <= -6),
    ensures
        millionths(d, p) == millionths(d, q),
{
    lemma_digits_at_zero(d, p, 6);
    lemma_digits_at_zero(d, q, 6);
    if p >= d.len() {
        assert(whole_nonzero(d, p) == whole_nonzero(d, q)) by {
            if whole_nonzero(d, p) {
                let i = choose|i: int| 0 <= i < d.len() && i < p && #[trigger] d[i] != '0';
                assert(i < q);
            }
            if whole_nonzero(d, q) {
                let i = choose|i: int| 0 <= i < d.len() && i < q && #[trigger] d[i] != '0';
                assert(i < p);
            }
        }
    }
}

/// A number's value lies in `[0, UNIT]`.
pub proof fn lemma_parse_unit_bounds(s: Seq<char>)
    ensures
        parse_unit(s) is Some ==> 0 <= parse_unit(s)->0 <= UNIT,
{
    let t = unsigned_part(s);
    match decimal_number(t) {
        Some(dp) => {
            let a = digit_run(t) as int;
            lemma_digit_run_digits(t);
            let r1 = t.skip(a);
            let has_dot = r1.len() > 0 && r1[0] == '.';
            let head = t.take(a);
            let tail = if has_dot {
                let u = r1.skip(1);
                lemma_digit_run_digits(u);
                u.take(digit_run(u) as int)
            } else {
                Seq::empty()
            };
            assert(dp.0 == head + tail);
            assert forall|i: int| 0 <= i < dp.0.len() implies is_digit(#[trigger] dp.0[i]) by {
                if i < head.len() {
                    assert(dp.0[i] == t[i]);
                } else {
                    assert(dp.0[i] == tail[i - head.len()]);
                }
            }
            lemma_digits_at_bounds(dp.0, dp.1, 6);
            lemma_pow10_values();
        },
        None => {},
    }
}

/// The exponent bound past which the point is outside any text's digits.
const EXP_CAP: i128 = 36893488147419103232;

/// Reads a signed exponent from position `from`, clamped to `[-EXP_CAP, EXP_CAP]`.
fn exponent_at(s: &str, from: usize) -> (r: Option<i128>)
    requires
        from <= s@.len(),
    ensures
        r is Some <==> parse_signed(s@.skip(from as int)) is Some,
        r is Some ==> {
            let x = parse_signed(s@.skip(from as int))->0;
            &&& x > EXP_CAP ==> r->0 == EXP_CAP
            &&& x < -EXP_CAP ==> r->0 == -EXP_CAP
            &&& -EXP_CAP <= x <= EXP_CAP ==> r->0 == x
        },
{
    let n = s.unicode_len();
    let ghost e = s@.skip(from as int);
    if from >= n {
        return None;
    }
    let c0 = s.get_char(from);
    assert(e[0] == c0);
    let neg = c0 == '-';
    let st: usize = if c0 == '-' || c0 == '+' {
        from + 1
    } else {
        from
    };
    let ghost d = s@.skip(st as int);
    assert(c0 == '-' || c0 == '+' ==> d =~= e.skip(1));
    assert(!(c0 == '-' || c0 == '+') ==> d =~= e);
    assert(parse_signed(e) is Some <==> (d.len() > 0 && all_digits(d)));
    assert(parse_signed(e) is Some ==> parse_signed(e)->0 == if neg {
        -decimal_value(d)
    } else {
        decimal_value(d)
    });
    if st >= n {
        assert(d.len() == 0);
        return None;
    }
    let mut acc: i128 = 0;
    let mut big = false;
    let mut i: usize = st;
    while i < n
        invariant
            n == s@.len(),
            st <= i <= n,
            d == s@.skip(st as int),
            e == s@.skip(from as int),
            parse_signed(e) is Some <==> (d.len() > 0 && all_digits(d)),
            parse_signed(e) is Some ==> parse_signed(e)->0 == if neg {
                -decimal_value(d)
            } else {
                decimal_value(d)
            },
            all_digits(s@.subrange(st as int, i as int)),
            !big ==> acc == decimal_value(s@.subrange(st as int, i as int)) && 0 <= acc <= EXP_CAP,
            big ==> decimal_value(s@.subrange(st as int, i as int)) > EXP_CAP,
        decreases n - i,
    {
        let c = s.get_char(i);
        let ghost prev = s@.subrange(st as int, i as int);
        let ghost next = s@.subrange(st as int, i + 1);
        assert(next.drop_last() =~= prev);
        if c < '0' || c > '9' {
            assert(d[i - st] == c);
            return None;
        }
        let v = (c as u32 - '0' as u32) as i128;
        assert(v == digit_value(next.last()));
        if !big {
            acc = acc * 10 + v;
            if acc > EXP_CAP {
                big = true;
            }
        }
        i = i + 1;
        assert forall|j: int| 0 <= j < next.len() implies is_digit(#[trigger] next[j]) by {
            if j < prev.len() {
                assert(next[j] == prev[j]);
            }
        }
    }
    assert(s@.subrange(st as int, n as int) =~= d);
    if big {
        if neg {
            Some(-EXP_CAP)
        } else {
            Some(EXP_CAP)
        }
    } else if neg {
        Some(-acc)
    } else {
        Some(acc)
    }
}

/// Whether `s` from position `from` to its end spells the lowercase word `w`,
/// ignoring ASCII case.
fn spells_from(s: &str, from: usize, w: &str) -> (r: bool)
    requires
        from <= s@.len(),
    ensures
        r == spells(s@.skip(from as int), w@),
{
    let n = s.unicode_len();
    let m = w.unicode_len();
    let ghost t = s@.skip(from as int);
    if n - from != m {
        return false;
    }
    let mut i: usize = 0;
    while i < m
        invariant
            n == s@.len(),
            m == w@.len(),
            n - from == m,
            from <= n,
            t == s@.skip(from as int),
            i <= m,
            forall|j: int| 0 <= j < i ==> same_letter(#[trigger] t[j], w@[j]),
        decreases m - i,
    {
        let c = s.get_char(from + i);
        let l = w.get_char(i);
        assert(t[i as int] == c);
        if !(c == l || c as u32 + 32 == l as u32) {
            return false;
        }
        i = i + 1;
    }
    true
}

/// The end of the run of digits that begins at `from`.
fn run_end(s: &str, from: usize) -> (r: usize)
    requires
        from <= s@.len(),
    ensures
        from <= r <= s@.len(),
        r - from == digit_run(s@.skip(from as int)),
        forall|j: int| from <= j < r ==> is_digit(#[trigger] s@[j]),
{
    let n = s.unicode_len();
    let ghost t = s@.skip(from as int);
    let mut i: usize = from;
    let mut stopped = false;
    while i < n && !stopped
        invariant
            n == s@.len(),
            from <= i <= n,
            t == s@.skip(from as int),
            forall|j: int| from <= j < i ==> is_digit(#[trigger] s@[j]),
            stopped ==> i < n && !is_digit(s@[i as int]),
        decreases n - i + if stopped {
            0int
        } else {
            1int
        },
    {
        let c = s.get_char(i);
        if c < '0' || c > '9' {
            stopped = true;
        } else {
            i = i + 1;
        }
    }
    proof {
        assert forall|j: int| 0 <= j < i - from implies is_digit(#[trigger] t[j]) by {
            assert(t[j] == s@[from + j]);
        }
        if i < n {
            assert(t[i - from] == s@[i as int]);
        }
        lemma_digit_run(t, i - from);
    }
    i
}

/// The digits of a number whose digits stand at `[st, a_end)` and
/// `[b_start, b_end)` of `s`.
pub open spec fn joined(s: Seq<char>, st: int, a_end: int, b_start: int, b_end: int) -> Seq<char> {
    s.subrange(st, a_end) + s.subrange(b_start, b_end)
}

fn joined_char(s: &str, st: usize, a_end: usize, b_start: usize, b_end: usize, i: usize) -> (c:
    char)
    requires
        st <= a_end <= b_start <= b_end <= s@.len(),
        i < (a_end - st) + (b_end - b_start),
    ensures
        c == joined(s@, st as int, a_end as int, b_start as int, b_end as int)[i as int],
{
    let a = a_end - st;
    if i < a {
        s.get_char(st + i)
    } else {
        s.get_char(b_start + (i - a))
    }
}

/// Whether a digit before position `p` is not zero.
fn whole_digit_nonzero(s: &str, st: usize, a_end: usize, b_start: usize, b_end: usize, p: i128) -> (r:
    bool)
    requires
        st <= a_end <= b_start <= b_end <= s@.len(),
    ensures
        r == whole_nonzero(joined(s@, st as int, a_end as int, b_start as int, b_end as int), p as int),
{
    let ghost d = joined(s@, st as int, a_end as int, b_start as int, b_end as int);
    let m = (a_end - st) + (b_end - b_start);
    let mut i: usize = 0;
    while i < m && (i as i128) < p
        invariant
            st <= a_end <= b_start <= b_end <= s@.len(),
            d == joined(s@, st as int, a_end as int, b_start as int, b_end as int),
            m == d.len(),
            i <= m,
            forall|j: int| 0 <= j < i ==> #[trigger] d[j] == '0',
        decreases m - i,
    {
        let c = joined_char(s, st, a_end, b_start, b_end, i);
        if c != '0' {
            assert(d[i as int] != '0');
            return true;
        }
        i = i + 1;
    }
    false
}

/// The six digits from position `p`, as an integer.
fn six_digits_from(s: &str, st: usize, a_end: usize, b_start: usize, b_end: usize, p: i128) -> (r:
    u64)
    requires
        st <= a_end <= b_start <= b_end <= s@.len(),
        all_digits(joined(s@, st as int, a_end as int, b_start as int, b_end as int)),
        -EXP_CAP - 10 <= p <= EXP_CAP + 10 + usize::MAX,
    ensures
        r == digits_at(joined(s@, st as int, a_end as int, b_start as int, b_end as int), p as int, 6),
        r < UNIT,
{
    let ghost d = joined(s@, st as int, a_end as int, b_start as int, b_end as int);
    let m = (a_end - st) + (b_end - b_start);
    let mut acc: u64 = 0;
    let mut k: usize = 0;
    while k < 6
        invariant
            st <= a_end <= b_start <= b_end <= s@.len(),
            d == joined(s@, st as int, a_end as int, b_start as int, b_end as int),
            m == d.len(),
            all_digits(d),
            -EXP_CAP - 10 <= p <= EXP_CAP + 10 + usize::MAX,
            k <= 6,
            acc == digits_at(d, p as int, k as nat),
            acc < pow10(k as nat),
        decreases 6 - k,
    {
        proof {
            lemma_pow10_values();
            assert(k == 0 || k == 1 || k == 2 || k == 3 || k == 4 || k == 5);
        }
        let idx: i128 = p + k as i128;
        let v: u64 = if 0 <= idx && idx < m as i128 {
            let c = joined_char(s, st, a_end, b_start, b_end, idx as usize);
            assert(is_digit(d[idx as int]));
            (c as u32 - '0' as u32) as u64
        } else {
            0
        };
        acc = acc * 10 + v;
        k = k + 1;
    }
    proof {
        lemma_pow10_values();
    }
    acc
}

/// Where the digits and the exponent of the decimal number that `s` holds
/// from position `st` stand: digits at `[st, a_end)` and `[b_start, b_end)`,
/// and the exponent clamped to `[-EXP_CAP, EXP_CAP]`.
#[verifier::rlimit(60)]
fn number_layout(s: &str, st: usize) -> (r: Option<(usize, usize, usize, i128)>)
    requires
        st <= s@.len(),
    ensures
        r is Some <==> decimal_number(s@.skip(st as int)) is Some,
        r is Some ==> {
            let (a_end, b_start, b_end, e) = r->0;
            let dn = decimal_number(s@.skip(st as int))->0;
            let x = dn.1 - (a_end - st);
            &&& st <= a_end <= b_start <= b_end <= s@.len()
            &&& dn.0 == joined(s@, st as int, a_end as int, b_start as int, b_end as int)
            &&& all_digits(dn.0)
            &&& x > EXP_CAP ==> e == EXP_CAP
            &&& x < -EXP_CAP ==> e == -EXP_CAP
            &&& -EXP_CAP <= x <= EXP_CAP ==> e == x
        },
{
    let n = s.unicode_len();
    let ghost t = s@.skip(st as int);
    // The digits before the point, at [st, a_end).
    let a_end = run_end(s, st);
    let a = a_end - st;
    let ghost r1 = t.skip(a as int);
    assert(r1 =~= s@.skip(a_end as int));
    let has_dot = a_end < n && s.get_char(a_end) == '.';
    assert(has_dot == (r1.len() > 0 && r1[0] == '.'));
    // The digits after the point, at [b_start, b_end).
    let b_start: usize = if has_dot {
        a_end + 1
    } else {
        a_end
    };
    let b_end = if has_dot {
        run_end(s, b_start)
    } else {
        a_end
    };
    let b = b_end - b_start;
    proof {
        if has_dot {
            assert(r1.skip(1) =~= s@.skip(b_start as int));
            assert(r1.skip(1).skip(b as int) =~= s@.skip(b_end as int));
            assert(r1.skip(1).take(b as int) =~= s@.subrange(b_start as int, b_end as int));
        } else {
            assert(s@.subrange(b_start as int, b_end as int) =~= Seq::<char>::empty());
        }
    }
    let ghost d = joined(s@, st as int, a_end as int, b_start as int, b_end as int);
    assert(t.take(a as int) =~= s@.subrange(st as int, a_end as int));
    let ghost r2 = s@.skip(b_end as int);
    if a + b == 0 {
        return None;
    }
    let mut exp: i128 = 0;
    let ghost x: int = 0;
    if b_end < n {
        let c = s.get_char(b_end);
        assert(r2[0] == c);
        if c != 'e' && c != 'E' {
            return None;
        }
        assert(r2.skip(1) =~= s@.skip(b_end + 1));
        match exponent_at(s, b_end + 1) {
            Some(e) => {
                exp = e;
                proof {
                    x = parse_signed(r2.skip(1))->0;
                }
            },
            None => {
                return None;
            },
        }
    }
    assert(decimal_number(t) == Some((d, a + x)));
    proof {
        assert forall|i: int| 0 <= i < d.len() implies is_digit(#[trigger] d[i]) by {
            if i < a {
                assert(d[i] == s@[st + i]);
            } else {
                assert(d[i] == s@[b_start + i - a]);
            }
        }
    }
    Some((a_end, b_start, b_end, exp))
}

/// Parses a fraction of one into millionths (see `parse_unit`).
pub fn parse_fraction(s: &str) -> (r: Option<u64>)
    ensures
        r is Some <==> parse_unit(s@) is Some,
        r is Some ==> r->0 == parse_unit(s@)->0,
        r is Some ==> r->0 <= UNIT,
{
    proof {
        reveal_strlit("inf");
        reveal_strlit("infinity");
        reveal_strlit("nan");
        lemma_parse_unit_bounds(s@);
    }
    let n = s.unicode_len();
    let mut st: usize = 0;
    let mut neg = false;
    if n > 0 {
        let c = s.get_char(0);
        if c == '-' || c == '+' {
            st = 1;
            neg = c == '-';
        }
    }
    let ghost t = unsigned_part(s@);
    assert(t =~= s@.skip(st as int));
    assert(neg == (s@.len() > 0 && s@[0] == '-'));
    if spells_from(s, st, "inf") || spells_from(s, st, "infinity") {
        return if neg {
            Some(0)
        } else {
            Some(UNIT)
        };
    }
    if spells_from(s, st, "nan") {
        return Some(0);
    }
    let (a_end, b_start, b_end, exp) = match number_layout(s, st) {
        Some(layout) => layout,
        None => {
            return None;
        },
    };
    if neg {
        return Some(0);
    }
    let ghost d = joined(s@, st as int, a_end as int, b_start as int, b_end as int);
    let ghost dn = decimal_number(t)->0;
    let ghost x = dn.1 - (a_end - st);
    let p: i128 = (a_end - st) as i128 + exp;
    proof {
        if x > EXP_CAP || x < -EXP_CAP {
            lemma_far_point(d, (a_end - st) + x, p as int);
        }
    }
    let whole = whole_digit_nonzero(s, st, a_end, b_start, b_end, p);
    if whole {
        return Some(UNIT);
    }
    Some(six_digits_from(s, st, a_end, b_start, b_end, p))
}

/// Renders a fraction given in millionths (see `unit_string`).
pub fn format_fraction(v: u64) -> (r: String)
    ensures
        r@ == unit_string(v as nat),
{
    proof {
        reveal_strlit("1");
        reveal_strlit("0.");
    }
    if v >= UNIT {
        return String::from_str("1");
    }
    let mut s = String::from_str("0.");
    let mut p: u64 = 100_000;
    let mut i: usize = 0;
    proof {
        lemma_pow10_values();
    }
    while i < 6
        invariant
            i <= 6,
            v < UNIT,
            i < 6 ==> p == pow10((5 - i) as nat),
            pow10(0) == 1 && pow10(1) == 10 && pow10(2) == 100 && pow10(3) == 1_000 && pow10(4)
                == 10_000 && pow10(5) == 100_000,
            s@ =~= seq!['0', '.'] + Seq::new(
                i as nat,
                |k: int| digit_char((((v as nat) / pow10((5 - k) as nat)) % 10) as int),
            ),
        decreases 6 - i,
    {
        proof {
            assert(i == 0 || i == 1 || i == 2 || i == 3 || i == 4 || i == 5);
        }
        s.append(digit_str((v / p) % 10));
        if i < 5 {
            p = p / 10;
        }
        i = i + 1;
    }
    s
}

/// Whether `a` and `b` hold the same characters.
pub fn same_text(a: &str, b: &str) -> (r: bool)
    ensures
        r == (a@ == b@),
{
    if a.unicode_len() != b.unicode_len() {
        return false;
    }
    let r = starts_with(a, b);
    proof {
        if r {
            assert(a@ =~= b@);
        }
    }
    r
}

proof fn lemma_digit_char(d: int)
    requires
        0 <= d < 10,
    ensures
        is_digit(digit_char(d)),
        digit_value(digit_char(d)) == d,
{
}

proof fn lemma_decimal_string(n: nat)
    ensures
        decimal_string(n).len() > 0,
        all_digits(decimal_string(n)),
        decimal_value(decimal_string(n)) == n,
    decreases n,
{
    let s = decimal_string(n);
    if n < 10 {
        lemma_digit_char(n as int);
        assert(s.drop_last() =~= Seq::<char>::empty());
        assert(decimal_value(s.drop_last()) == 0);
        assert(s.last() == digit_char(n as int));
        assert(decimal_value(s) == decimal_value(s.drop_last()) * 10 + digit_value(s.last()));
    } else {
        lemma_decimal_string(n / 10);
        lemma_digit_char((n % 10) as int);
        let p = decimal_string(n / 10);
        assert(s.drop_last() =~= p);
        assert(s.last() == digit_char((n % 10) as int));
        assert(decimal_value(s) == decimal_value(p) * 10 + digit_value(s.last()));
        assert(n as int == (n / 10) as int * 10 + (n % 10) as int);
        assert forall|i: int| 0 <= i < s.len() implies is_digit(#[trigger] s[i]) by {
            if i < p.len() {
                assert(s[i] == p[i]);
            }
        }
    }
}

/// Reading back the decimal rendering of a natural number gives it back.
pub proof fn lemma_unsigned_round_trip(n: nat)
    ensures
        parse_unsigned(decimal_string(n)) == Some(n as int),
{
    lemma_decimal_string(n);
    assert(is_digit(decimal_string(n)[0]));
}

/// Reading back the decimal rendering of an integer gives it back.
pub proof fn lemma_signed_round_trip(n: int)
    ensures
        parse_signed(signed_string(n)) == Some(n),
{
    if n < 0 {
        let d = decimal_string((-n) as nat);
        lemma_decimal_string((-n) as nat);
        assert((seq!['-'] + d).skip(1) =~= d);
    } else {
        lemma_unsigned_round_trip(n as nat);
        lemma_decimal_string(n as nat);
        assert(is_digit(decimal_string(n as nat)[0]));
    }
}

proof fn lemma_six_decimals(v: nat, k: nat)
    requires
        v < UNIT,
        k <= 6,
    ensures
        decimals_value(
            Seq::new(6, |i: int| digit_char((((v as nat) / pow10((5 - i) as nat)) % 10) as int)),
            k,
        ) == v / pow10((6 - k) as nat),
    decreases k,
{
    let d = Seq::new(6, |i: int| digit_char((((v as nat) / pow10((5 - i) as nat)) % 10) as int));
    lemma_pow10_values();
    if k == 0 {
        assert(v / pow10(6) == 0);
    } else {
        lemma_six_decimals(v, (k - 1) as nat);
        let p = pow10((6 - k) as nat) as int;
        assert(pow10((7 - k) as nat) == 10 * p);
        assert(p > 0) by {
            assert(k == 1 || k == 2 || k == 3 || k == 4 || k == 5 || k == 6);
        }
        let q = (v as int) / p;
        vstd::arithmetic::div_mod::lemma_div_denominator(v as int, p, 10);
        assert(p * 10 == 10 * p);
        vstd::arithmetic::div_mod::lemma_fundamental_div_mod(q, 10);
        lemma_digit_char(q % 10);
        assert(d[k - 1] == digit_char(q % 10));
    }
}

proof fn lemma_digits_after_lead(b: Seq<char>, k: nat)
    requires
        k <= b.len(),
    ensures
        digits_at(seq!['0'] + b, 1, k) == decimals_value(b, k),
    decreases k,
{
    if k > 0 {
        lemma_digits_after_lead(b, (k - 1) as nat);
        assert((seq!['0'] + b)[k as int] == b[k - 1]);
    }
}

/// Reading back the rendering of a fraction gives it back, clamped to one.
pub proof fn lemma_fraction_round_trip(v: nat)
    ensures
        parse_unit(unit_string(v)) == Some(
            if v >= UNIT {
                UNIT as int
            } else {
                v as int
            },
        ),
{
    reveal_strlit("inf");
    reveal_strlit("infinity");
    reveal_strlit("nan");
    let s = unit_string(v);
    let t = unsigned_part(s);
    if v >= UNIT {
        assert(t == s);
        lemma_digit_run(s, 1);
        assert(t.skip(1).len() == 0);
        let d = t.take(1) + Seq::<char>::empty();
        assert(decimal_number(t) == Some((d, 1int)));
        assert(d[0] != '0');
        assert(whole_nonzero(d, 1));
    } else {
        let b = Seq::new(6, |i: int| digit_char((((v as nat) / pow10((5 - i) as nat)) % 10) as int));
        assert(s == seq!['0', '.'] + b);
        assert(t == s);
        assert(!same_letter(t[0], "infinity"@[0]));
        assert(!same_letter(t[0], "inf"@[0]));
        assert(!same_letter(t[0], "nan"@[0]));
        lemma_digit_run(s, 1);
        let r1 = s.skip(1);
        assert(r1.len() > 0 && r1[0] == '.');
        assert(r1.skip(1) =~= b);
        assert forall|i: int| 0 <= i < b.len() implies is_digit(#[trigger] b[i]) by {
            lemma_pow10_values();
            assert(pow10((5 - i) as nat) > 0) by {
                assert(i == 0 || i == 1 || i == 2 || i == 3 || i == 4 || i == 5);
            }
            lemma_digit_char((((v as nat) / pow10((5 - i) as nat)) % 10) as int);
        }
        lemma_digit_run(b, 6);
        assert(b.skip(6).len() == 0);
        assert(b.take(6) =~= b);
        let d = t.take(1) + b;
        assert(t.take(1) =~= seq!['0']);
        assert(decimal_number(t) == Some((d, 1int)));
        assert(!whole_nonzero(d, 1));
        lemma_digits_after_lead(b, 6);
        lemma_six_decimals(v, 6);
        lemma_pow10_values();
        assert(v / pow10(0) == v);
    }
}
} // verus!
