use vstd::prelude::*;

verus! {

// The command text is a sequence of characters, each typed as one byte and
// stored as the character with that code (so every character code is below
// 256).

/// `char::is_whitespace` on the characters with codes below 256.
pub open spec fn is_space(c: u8) -> bool {
    (9 <= c && c <= 13) || c == 32 || c == 0x85 || c == 0xA0
}

/// The text without leading whitespace.
pub open spec fn trim_start(s: Seq<u8>) -> Seq<u8>
    decreases s.len(),
{
    if s.len() > 0 && is_space(s[0]) {
        trim_start(s.drop_first())
    } else {
        s
    }
}

/// The text without trailing whitespace.
pub open spec fn trim_end(s: Seq<u8>) -> Seq<u8>
    decreases s.len(),
{
    if s.len() > 0 && is_space(s.last()) {
        trim_end(s.drop_last())
    } else {
        s
    }
}

/// The text without leading and trailing whitespace.
pub open spec fn trim(s: Seq<u8>) -> Seq<u8> {
    trim_end(trim_start(s))
}

/// The position of the first character that is `a` or `b`.
pub open spec fn find_either(s: Seq<u8>, a: u8, b: u8) -> Option<int>
    decreases s.len(),
{
    if s.len() == 0 {
        None
    } else if s[0] == a || s[0] == b {
        Some(0)
    } else {
        match find_either(s.drop_first(), a, b) {
            Some(i) => Some(i + 1),
            None => None,
        }
    }
}

pub open spec fn is_digit(c: u8) -> bool {
    48 <= c && c <= 57
}

pub open spec fn all_digits(d: Seq<u8>) -> bool {
    forall|i: int| 0 <= i < d.len() ==> #[trigger] is_digit(d[i])
}

/// The number written by a string of decimal digits.
pub open spec fn digits_value(d: Seq<u8>) -> int
    decreases d.len(),
{
    if d.len() == 0 {
        0
    } else {
        digits_value(d.drop_last()) * 10 + (d.last() - 48)
    }
}

/// `u32::from_str`: an optional `+`, then at least one decimal digit, the
/// whole at most `u32::MAX`.
pub open spec fn parse_u32(s: Seq<u8>) -> Option<u32> {
    let d = if s.len() > 0 && s[0] == 43 { s.drop_first() } else { s };
    if d.len() > 0 && all_digits(d) && digits_value(d) <= u32::MAX {
        Some(digits_value(d) as u32)
    } else {
        None
    }
}

pub open spec fn wmul(a: u32, b: u32) -> u32 {
    vstd::wrapping::u32_specs::wrapping_mul(a, b)
}

pub open spec fn wadd(a: u32, b: u32) -> u32 {
    vstd::wrapping::u32_specs::wrapping_add(a, b)
}

/// `10^n` in wrapping 32-bit arithmetic.
pub open spec fn pow10_wrapped(n: nat) -> u32
    decreases n,
{
    if n == 0 { 1 } else { wmul(pow10_wrapped((n - 1) as nat), 10) }
}

/// `whole * mult + frac * mult / 10^digits` in wrapping 32-bit arithmetic.
pub open spec fn scaled(whole: u32, frac: u32, mult: u32, digits: nat) -> u32 {
    wadd(wmul(whole, mult), (wmul(frac, mult) / pow10_wrapped(digits)) as u32)
}

/// The frequency a command asks for, in hertz, or `None` if it is not a
/// frequency. Empty (or blank) keeps `current`. A number may carry a
/// fraction after `.`; a `k` or `K` multiplies by 1000, and digits after the
/// `k` count as the fraction when the number before it has no `.` (so
/// `1.5k` and `1k5` both mean 1500). Arithmetic wraps at 32 bits.
pub open spec fn spec_parse_freq(s: Seq<u8>, current: u32) -> Option<u32> {
    let t = trim(s);
    if t.len() == 0 {
        Some(current)
    } else {
        let kpos = find_either(t, 107, 75);
        let mult: u32 = if kpos is Some { 1000 } else { 1 };
        let body = match kpos {
            Some(p) => t.take(p),
            None => t,
        };
        match find_either(body, 46, 46) {
            Some(d) => {
                let left = body.take(d);
                let right = body.skip(d + 1);
                let whole = if left.len() == 0 { Some(0u32) } else { parse_u32(left) };
                match (whole, parse_u32(right)) {
                    (Some(w), Some(f)) => Some(scaled(w, f, mult, right.len())),
                    _ => None,
                }
            },
            None => match (parse_u32(body), kpos) {
                (None, _) => None,
                (Some(v), None) => Some(v),
                (Some(v), Some(p)) => {
                    let tail = t.skip(p + 1);
                    if tail.len() == 0 {
                        Some(wmul(v, 1000))
                    } else {
                        match parse_u32(tail) {
                            Some(f) => Some(scaled(v, f, 1000, tail.len())),
                            None => None,
                        }
                    }
                },
            },
        }
    }
}

/// The number of fraction digits a command divides by, when it gets that
/// far (both numbers parse).
pub open spec fn fraction_digits(s: Seq<u8>) -> Option<nat> {
    let t = trim(s);
    if t.len() == 0 {
        None
    } else {
        let kpos = find_either(t, 107, 75);
        let body = match kpos {
            Some(p) => t.take(p),
            None => t,
        };
        match find_either(body, 46, 46) {
            Some(d) => {
                let left = body.take(d);
                let right = body.skip(d + 1);
                let whole = if left.len() == 0 { Some(0u32) } else { parse_u32(left) };
                if whole is Some && parse_u32(right) is Some { Some(right.len()) } else { None }
            },
            None => match (parse_u32(body), kpos) {
                (Some(v), Some(p)) => {
                    let tail = t.skip(p + 1);
                    if tail.len() > 0 && parse_u32(tail) is Some { Some(tail.len()) } else { None }
                },
                _ => None,
            },
        }
    }
}

/// Whether parsing `s` never divides by zero (`10^n` wraps to zero from
/// `n == 32` on).
pub open spec fn divisor_ok(s: Seq<u8>) -> bool {
    match fraction_digits(s) {
        Some(n) => pow10_wrapped(n) != 0,
        None => true,
    }
}

proof fn lemma_trim_start_step(s: Seq<u8>, a: int)
    requires
        0 <= a < s.len(),
        is_space(s[a]),
    ensures
        trim_start(s.subrange(a, s.len() as int)) == trim_start(s.subrange(a + 1, s.len() as int)),
{
    assert(s.subrange(a, s.len() as int).drop_first() =~= s.subrange(a + 1, s.len() as int));
}

proof fn lemma_trim_end_step(s: Seq<u8>, a: int, b: int)
    requires
        0 <= a < b <= s.len(),
        is_space(s[b - 1]),
    ensures
        trim_end(s.subrange(a, b)) == trim_end(s.subrange(a, b - 1)),
{
    assert(s.subrange(a, b).drop_last() =~= s.subrange(a, b - 1));
}

/// The bounds of the text without leading and trailing whitespace.
fn trim_bounds(s: &[u8]) -> (r: (usize, usize))
    ensures
        r.0 <= r.1 <= s@.len(),
        s@.subrange(r.0 as int, r.1 as int) == trim(s@),
{
    let n = s.len();
    let mut a: usize = 0;
    proof {
        assert(s@.subrange(0, n as int) =~= s@);
    }
    while a < n && (s[a] == 32 || (s[a] >= 9 && s[a] <= 13) || s[a] == 0x85 || s[a] == 0xA0)
        invariant
            n == s@.len(),
            a <= n,
            trim_start(s@) == trim_start(s@.subrange(a as int, n as int)),
        decreases n - a,
    {
        proof {
            lemma_trim_start_step(s@, a as int);
        }
        a = a + 1;
    }
    let mut b: usize = n;
    proof {
        assert(trim_start(s@) == s@.subrange(a as int, n as int));
    }
    while b > a && (s[b - 1] == 32 || (s[b - 1] >= 9 && s[b - 1] <= 13) || s[b - 1] == 0x85 || s[b - 1] == 0xA0)
        invariant
            n == s@.len(),
            a <= b <= n,
            trim_start(s@) == s@.subrange(a as int, n as int),
            trim(s@) == trim_end(s@.subrange(a as int, b as int)),
        decreases b - a,
    {
        proof {
            lemma_trim_end_step(s@, a as int, b as int);
        }
        b = b - 1;
    }
    (a, b)
}

proof fn lemma_find_step(s: Seq<u8>, from: int, i: int, to: int, a: u8, b: u8)
    requires
        0 <= from <= i < to <= s.len(),
        s[i] != a && s[i] != b,
        find_either(s.subrange(from, to), a, b) == (match find_either(s.subrange(i, to), a, b) {
            Some(k) => Some(k + (i - from)),
            None => None,
        }),
    ensures
        find_either(s.subrange(from, to), a, b) == (match find_either(s.subrange(i + 1, to), a, b) {
            Some(k) => Some(k + (i + 1 - from)),
            None => None,
        }),
{
    assert(s.subrange(i, to).drop_first() =~= s.subrange(i + 1, to));
}

/// The position, counted from `from`, of the first `a` or `b` in
/// `s[from..to]`.
fn find_either_in(s: &[u8], from: usize, to: usize, a: u8, b: u8) -> (r: Option<usize>)
    requires
        from <= to <= s@.len(),
    ensures
        r matches Some(k) ==> find_either(s@.subrange(from as int, to as int), a, b) == Some(k as int)
            && k < to - from,
        r is None ==> find_either(s@.subrange(from as int, to as int), a, b) is None,
{
    let mut i = from;
    while i < to
        invariant
            from <= i <= to <= s@.len(),
            find_either(s@.subrange(from as int, to as int), a, b) == (match find_either(s@.subrange(i as int, to as int), a, b) {
                Some(k) => Some(k + (i - from)),
                None => None,
            }),
        decreases to - i,
    {
        if s[i] == a || s[i] == b {
            return Some(i - from);
        }
        proof {
            lemma_find_step(s@, from as int, i as int, to as int, a, b);
        }
        i = i + 1;
    }
    None
}

proof fn lemma_digits_value_push(d: Seq<u8>, c: u8)
    ensures
        digits_value(d.push(c)) == digits_value(d) * 10 + (c - 48),
{
    assert(d.push(c).drop_last() =~= d);
}

proof fn lemma_digits_value_nonneg(d: Seq<u8>)
    requires
        all_digits(d),
    ensures
        digits_value(d) >= 0,
    decreases d.len(),
{
    if d.len() > 0 {
        assert(all_digits(d.drop_last()));
        lemma_digits_value_nonneg(d.drop_last());
        assert(is_digit(d.last()));
    }
}

proof fn lemma_digits_value_prefix(d: Seq<u8>, k: int)
    requires
        all_digits(d),
        0 <= k <= d.len(),
    ensures
        digits_value(d) >= digits_value(d.take(k)),
    decreases d.len(),
{
    if k == d.len() {
        assert(d.take(k) =~= d);
    } else {
        assert(all_digits(d.drop_last()));
        lemma_digits_value_prefix(d.drop_last(), k);
        assert(d.drop_last().take(k) =~= d.take(k));
        lemma_digits_value_nonneg(d.drop_last());
        assert(is_digit(d.last()));
    }
}

/// `u32::from_str` on `s[from..to]`.
fn parse_u32_in(s: &[u8], from: usize, to: usize) -> (r: Option<u32>)
    requires
        from <= to <= s@.len(),
    ensures
        r == parse_u32(s@.subrange(from as int, to as int)),
{
    let ghost t = s@.subrange(from as int, to as int);
    let mut i = from;
    if i < to && s[i] == 43 {
        i = i + 1;
    }
    let ghost d = s@.subrange(i as int, to as int);
    proof {
        if t.len() > 0 && t[0] == 43 {
            assert(t.drop_first() =~= d);
        } else {
            assert(t =~= d);
        }
    }
    if i == to {
        return None;
    }
    let start = i;
    let mut acc: u32 = 0;
    proof {
        assert(d.take(0) =~= Seq::<u8>::empty());
    }
    while i < to
        invariant
            from <= start <= i <= to <= s@.len(),
            start < to,
            d == s@.subrange(start as int, to as int),
            t == s@.subrange(from as int, to as int),
            (if t.len() > 0 && t[0] == 43 { t.drop_first() } else { t }) == d,
            all_digits(d.take(i - start)),
            acc == digits_value(d.take(i - start)),
        decreases to - i,
    {
        let c = s[i];
        if c < 48 || c > 57 {
            proof {
                assert(d[i - start] == c);
                assert(!is_digit(d[i - start]));
                assert(!all_digits(d));
            }
            return None;
        }
        let k = i - start;
        proof {
            assert(d.take(k + 1) =~= d.take(k as int).push(c));
            lemma_digits_value_push(d.take(k as int), c);
        }
        let m = acc.checked_mul(10);
        let next = match m {
            Some(m) => m.checked_add((c - 48) as u32),
            None => None,
        };
        match next {
            Some(v) => {
                acc = v;
            },
            None => {
                proof {
                    assert(is_digit(c));
                    assert(digits_value(d.take(k + 1)) > u32::MAX);
                    if all_digits(d) {
                        lemma_digits_value_prefix(d, k + 1);
                    }
                }
                return None;
            },
        }
        i = i + 1;
    }
    proof {
        assert(d.take(d.len() as int) =~= d);
    }
    Some(acc)
}

/// `10u32.pow(n)` in wrapping arithmetic.
fn pow10_wrapping(n: usize) -> (r: u32)
    ensures
        r == pow10_wrapped(n as nat),
{
    let mut p: u32 = 1;
    let mut i: usize = 0;
    while i < n
        invariant
            i <= n,
            p == pow10_wrapped(i as nat),
        decreases n - i,
    {
        p = p.wrapping_mul(10);
        i = i + 1;
    }
    p
}

/// `whole * mult + frac * mult / 10^digits` in wrapping arithmetic.
fn scaled_exec(whole: u32, frac: u32, mult: u32, digits: usize) -> (r: u32)
    requires
        pow10_wrapped(digits as nat) != 0,
    ensures
        r == scaled(whole, frac, mult, digits as nat),
{
    let scale = pow10_wrapping(digits);
    whole.wrapping_mul(mult).wrapping_add(frac.wrapping_mul(mult) / scale)
}

/// Reads a frequency command (see [`spec_parse_freq`]); `current` is the
/// frequency in use, which an empty command keeps.
pub fn parse_freq(s: &[u8], current: u32) -> (r: Option<u32>)
    requires
        divisor_ok(s@),
    ensures
        r == spec_parse_freq(s@, current),
{
    let (a, b) = trim_bounds(s);
    let ghost t = trim(s@);
    if a == b {
        return Some(current);
    }
    let kpos = find_either_in(s, a, b, 107, 75);
    let mult: u32 = if kpos.is_some() { 1000 } else { 1 };
    let body_end = match kpos {
        Some(p) => a + p,
        None => b,
    };
    proof {
        match kpos {
            Some(p) => {
                assert(t.take(p as int) =~= s@.subrange(a as int, body_end as int));
            },
            None => {},
        }
    }
    let dot = find_either_in(s, a, body_end, 46, 46);
    match dot {
        Some(d) => {
            proof {
                let body = s@.subrange(a as int, body_end as int);
                assert(body.take(d as int) =~= s@.subrange(a as int, (a + d) as int));
                assert(body.skip(d + 1) =~= s@.subrange((a + d + 1) as int, body_end as int));
            }
            let whole = if d == 0 {
                Some(0u32)
            } else {
                parse_u32_in(s, a, a + d)
            };
            let w = match whole {
                Some(w) => w,
                None => {
                    return None;
                },
            };
            let f = match parse_u32_in(s, a + d + 1, body_end) {
                Some(f) => f,
                None => {
                    return None;
                },
            };
            Some(scaled_exec(w, f, mult, body_end - (a + d + 1)))
        },
        None => {
            let v = match parse_u32_in(s, a, body_end) {
                Some(v) => v,
                None => {
                    return None;
                },
            };
            match kpos {
                None => Some(v),
                Some(p) => {
                    let tail_start = a + p + 1;
                    proof {
                        assert(t.skip(p + 1) =~= s@.subrange(tail_start as int, b as int));
                    }
                    if tail_start == b {
                        Some(v.wrapping_mul(1000))
                    } else {
                        match parse_u32_in(s, tail_start, b) {
                            Some(f) => Some(scaled_exec(v, f, 1000, b - tail_start)),
                            None => None,
                        }
                    }
                },
            }
        },
    }
}


/// `10^n` wraps to zero only from `n == 32` on: every power below is
/// nonzero.
pub proof fn lemma_pow10_wrapped_nonzero(n: nat)
    requires
        n < 32,
    ensures
        pow10_wrapped(n) != 0,
{
    assert(pow10_wrapped(0) == 1u32);
    assert(pow10_wrapped(1) == 10u32);
    assert(pow10_wrapped(2) == 100u32);
    assert(pow10_wrapped(3) == 1000u32);
    assert(pow10_wrapped(4) == 10000u32);
    assert(pow10_wrapped(5) == 100000u32);
    assert(pow10_wrapped(6) == 1000000u32);
    assert(pow10_wrapped(7) == 10000000u32);
    assert(pow10_wrapped(8) == 100000000u32);
    assert(pow10_wrapped(9) == 1000000000u32);
    assert(pow10_wrapped(10) == 1410065408u32);
    assert(pow10_wrapped(11) == 1215752192u32);
    assert(pow10_wrapped(12) == 3567587328u32);
    assert(pow10_wrapped(13) == 1316134912u32);
    assert(pow10_wrapped(14) == 276447232u32);
    assert(pow10_wrapped(15) == 2764472320u32);
    assert(pow10_wrapped(16) == 1874919424u32);
    assert(pow10_wrapped(17) == 1569325056u32);
    assert(pow10_wrapped(18) == 2808348672u32);
    assert(pow10_wrapped(19) == 2313682944u32);
    assert(pow10_wrapped(20) == 1661992960u32);
    assert(pow10_wrapped(21) == 3735027712u32);
    assert(pow10_wrapped(22) == 2990538752u32);
    assert(pow10_wrapped(23) == 4135583744u32);
    assert(pow10_wrapped(24) == 2701131776u32);
    assert(pow10_wrapped(25) == 1241513984u32);
    assert(pow10_wrapped(26) == 3825205248u32);
    assert(pow10_wrapped(27) == 3892314112u32);
    assert(pow10_wrapped(28) == 268435456u32);
    assert(pow10_wrapped(29) == 2684354560u32);
    assert(pow10_wrapped(30) == 1073741824u32);
    assert(pow10_wrapped(31) == 2147483648u32);
}

proof fn lemma_trim_start_len(s: Seq<u8>)
    ensures
        trim_start(s).len() <= s.len(),
    decreases s.len(),
{
    if s.len() > 0 && is_space(s[0]) {
        lemma_trim_start_len(s.drop_first());
    }
}

proof fn lemma_trim_end_len(s: Seq<u8>)
    ensures
        trim_end(s).len() <= s.len(),
    decreases s.len(),
{
    if s.len() > 0 && is_space(s.last()) {
        lemma_trim_end_len(s.drop_last());
    }
}

proof fn lemma_find_either_bound(s: Seq<u8>, a: u8, b: u8)
    ensures
        find_either(s, a, b) matches Some(i) ==> 0 <= i < s.len(),
    decreases s.len(),
{
    if s.len() > 0 {
        lemma_find_either_bound(s.drop_first(), a, b);
    }
}

/// A command of at most 32 characters never divides by zero.
pub proof fn lemma_divisor_ok_short(s: Seq<u8>)
    requires
        s.len() <= 32,
    ensures
        divisor_ok(s),
{
    let t = trim(s);
    lemma_trim_start_len(s);
    lemma_trim_end_len(trim_start(s));
    lemma_find_either_bound(t, 107, 75);
    let kpos = find_either(t, 107, 75);
    let body = match kpos {
        Some(p) => t.take(p),
        None => t,
    };
    lemma_find_either_bound(body, 46, 46);
    match fraction_digits(s) {
        Some(n) => {
            lemma_pow10_wrapped_nonzero(n);
        },
        None => {},
    }
}


/// The decimal digits of `n`, without leading zeros.
pub open spec fn decimal(n: nat) -> Seq<u8>
    decreases n,
{
    if n < 10 {
        seq![(48 + n) as u8]
    } else {
        decimal(n / 10).push((48 + n % 10) as u8)
    }
}

/// `n` in decimal, padded with leading zeros to at least `width` digits.
pub open spec fn zero_padded(n: nat, width: nat) -> Seq<u8> {
    let d = decimal(n);
    if d.len() >= width {
        d
    } else {
        Seq::new((width - d.len()) as nat, |i: int| 48u8) + d
    }
}

/// A frequency as the generator shows it: plain hertz below 1 kHz,
/// otherwise kilohertz with `k` and as few fraction digits as are exact
/// (`1k`, `1.5k`, `1.25k`, `1.255k`).
pub open spec fn spec_format_freq(freq: u32) -> Seq<u8> {
    if freq < 1000 {
        decimal(freq as nat)
    } else {
        let k = (freq / 1000) as nat;
        let r = (freq % 1000) as nat;
        if r == 0 {
            decimal(k) + seq![107u8]
        } else if r % 100 == 0 {
            decimal(k) + seq![46u8] + decimal(r / 100) + seq![107u8]
        } else if r % 10 == 0 {
            decimal(k) + seq![46u8] + zero_padded(r / 10, 2) + seq![107u8]
        } else {
            decimal(k) + seq![46u8] + zero_padded(r, 3) + seq![107u8]
        }
    }
}

proof fn lemma_decimal_len(n: nat)
    ensures
        n < 10 ==> decimal(n).len() == 1,
        10 <= n < 100 ==> decimal(n).len() == 2,
        100 <= n < 1000 ==> decimal(n).len() == 3,
        decimal(n).len() >= 1,
    decreases n,
{
    if n >= 10 {
        lemma_decimal_len(n / 10);
    }
}

/// Appends `n` in decimal.
fn push_decimal(out: &mut Vec<u8>, n: u32)
    ensures
        final(out)@ == old(out)@ + decimal(n as nat),
    decreases n,
{
    if n >= 10 {
        push_decimal(out, n / 10);
    }
    out.push(48 + (n % 10) as u8);
    proof {
        if n < 10 {
            assert(old(out)@.push((48 + n) as u8) =~= old(out)@ + decimal(n as nat));
        } else {
            assert((old(out)@ + decimal((n / 10) as nat)).push((48 + n % 10) as u8)
                =~= old(out)@ + decimal(n as nat));
        }
    }
}

/// Appends `n` (below 1000) in decimal, zero-padded to `width` digits
/// (2 or 3).
fn push_zero_padded(out: &mut Vec<u8>, n: u32, width: u32)
    requires
        width == 2 || width == 3,
        n < 1000,
    ensures
        final(out)@ == old(out)@ + zero_padded(n as nat, width as nat),
{
    proof {
        lemma_decimal_len(n as nat);
    }
    let ghost o = out@;
    if width == 3 && n < 100 {
        out.push(48);
    }
    if n < 10 {
        out.push(48);
    }
    push_decimal(out, n);
    proof {
        let d = decimal(n as nat);
        if d.len() < width {
            assert(out@ =~= o + (Seq::new((width - d.len()) as nat, |i: int| 48u8) + d));
        } else {
            assert(out@ =~= o + d);
        }
    }
}

/// Appends the bytes of `s`.
fn push_all(out: &mut Vec<u8>, s: &[u8])
    ensures
        final(out)@ == old(out)@ + s@,
{
    let mut i: usize = 0;
    while i < s.len()
        invariant
            i <= s@.len(),
            out@ == old(out)@ + s@.take(i as int),
        decreases s@.len() - i,
    {
        out.push(s[i]);
        proof {
            assert(s@.take(i + 1) =~= s@.take(i as int).push(s@[i as int]));
        }
        i = i + 1;
    }
    proof {
        assert(s@.take(s@.len() as int) =~= s@);
    }
}

/// Bytes the generator's reply line holds.
pub const REPLY_CAPACITY: usize = 32;

/// Byte pieces joined in order.
pub open spec fn concat_pieces(ps: Seq<Seq<u8>>) -> Seq<u8>
    decreases ps.len(),
{
    if ps.len() == 0 {
        Seq::empty()
    } else {
        ps[0] + concat_pieces(ps.drop_first())
    }
}

/// `out` with the pieces `ps` appended in order, each whole, as long as it
/// fits in `cap` bytes: the first piece that does not fit, and every piece
/// after it, is left out.
pub open spec fn append_fitting(out: Seq<u8>, ps: Seq<Seq<u8>>, cap: nat) -> Seq<u8>
    decreases ps.len(),
{
    if ps.len() == 0 {
        out
    } else if out.len() + ps[0].len() <= cap {
        append_fitting(out + ps[0], ps.drop_first(), cap)
    } else {
        out
    }
}

/// `n` zero-padded to `width` digits, in the pieces it is written in: each
/// padding zero on its own, then the digits.
pub open spec fn padded_pieces(n: nat, width: nat) -> Seq<Seq<u8>> {
    let d = decimal(n);
    let pad: nat = if d.len() >= width { 0 } else { (width - d.len()) as nat };
    Seq::new(pad, |i: int| seq![48u8]).push(d)
}

/// A frequency as the generator shows it (see [`spec_format_freq`]), in
/// the pieces it is written in.
pub open spec fn freq_pieces(freq: u32) -> Seq<Seq<u8>> {
    if freq < 1000 {
        seq![decimal(freq as nat)]
    } else {
        let k = (freq / 1000) as nat;
        let r = (freq % 1000) as nat;
        if r == 0 {
            seq![decimal(k), seq![107u8]]
        } else if r % 100 == 0 {
            seq![decimal(k), seq![46u8], decimal(r / 100), seq![107u8]]
        } else if r % 10 == 0 {
            seq![decimal(k), seq![46u8]] + padded_pieces(r / 10, 2) + seq![seq![107u8]]
        } else {
            seq![decimal(k), seq![46u8]] + padded_pieces(r, 3) + seq![seq![107u8]]
        }
    }
}

proof fn lemma_concat_append(a: Seq<Seq<u8>>, b: Seq<Seq<u8>>)
    ensures
        concat_pieces(a + b) == concat_pieces(a) + concat_pieces(b),
    decreases a.len(),
{
    if a.len() == 0 {
        assert(a + b =~= b);
        assert(Seq::<u8>::empty() + concat_pieces(b) =~= concat_pieces(b));
    } else {
        assert((a + b).drop_first() =~= a.drop_first() + b);
        lemma_concat_append(a.drop_first(), b);
        assert(a[0] + (concat_pieces(a.drop_first()) + concat_pieces(b))
            =~= (a[0] + concat_pieces(a.drop_first())) + concat_pieces(b));
    }
}

proof fn lemma_concat_one(x: Seq<u8>)
    ensures
        concat_pieces(seq![x]) == x,
{
    let e = Seq::<Seq<u8>>::empty();
    assert(seq![x].drop_first() =~= e);
    assert(concat_pieces(e) == Seq::<u8>::empty());
    assert(x + Seq::<u8>::empty() =~= x);
}

proof fn lemma_concat_zeros(p: nat)
    ensures
        concat_pieces(Seq::new(p, |i: int| seq![48u8])) == Seq::new(p, |i: int| 48u8),
    decreases p,
{
    let zs = Seq::new(p, |i: int| seq![48u8]);
    if p == 0 {
        assert(Seq::new(p, |i: int| 48u8) =~= Seq::<u8>::empty());
    } else {
        assert(zs.drop_first() =~= Seq::new((p - 1) as nat, |i: int| seq![48u8]));
        lemma_concat_zeros((p - 1) as nat);
        assert(seq![48u8] + Seq::new((p - 1) as nat, |i: int| 48u8) =~= Seq::new(p, |i: int| 48u8));
    }
}

proof fn lemma_concat_padded(n: nat, width: nat)
    ensures
        concat_pieces(padded_pieces(n, width)) == zero_padded(n, width),
{
    let d = decimal(n);
    let pad: nat = if d.len() >= width { 0 } else { (width - d.len()) as nat };
    let zs = Seq::new(pad, |i: int| seq![48u8]);
    assert(zs.push(d) =~= zs + seq![d]);
    lemma_concat_append(zs, seq![d]);
    lemma_concat_zeros(pad);
    lemma_concat_one(d);
    if d.len() >= width {
        assert(Seq::new(pad, |i: int| 48u8) + d =~= d);
    }
}

/// The pieces of a frequency make up its text.
proof fn lemma_freq_pieces_concat(freq: u32)
    ensures
        concat_pieces(freq_pieces(freq)) == spec_format_freq(freq),
{
    let k = (freq / 1000) as nat;
    let r = (freq % 1000) as nat;
    let dot = seq![46u8];
    let kk = seq![107u8];
    if freq < 1000 {
        lemma_concat_one(decimal(freq as nat));
    } else if r == 0 {
        assert(seq![decimal(k), kk] =~= seq![decimal(k)] + seq![kk]);
        lemma_concat_append(seq![decimal(k)], seq![kk]);
        lemma_concat_one(decimal(k));
        lemma_concat_one(kk);
    } else if r % 100 == 0 {
        let d2 = decimal(r / 100);
        assert(seq![decimal(k), dot, d2, kk] =~= seq![decimal(k)] + seq![dot] + seq![d2] + seq![kk]);
        lemma_concat_append(seq![decimal(k)] + seq![dot] + seq![d2], seq![kk]);
        lemma_concat_append(seq![decimal(k)] + seq![dot], seq![d2]);
        lemma_concat_append(seq![decimal(k)], seq![dot]);
        lemma_concat_one(decimal(k));
        lemma_concat_one(dot);
        lemma_concat_one(d2);
        lemma_concat_one(kk);
    } else {
        let (n, w): (nat, nat) = if r % 10 == 0 { ((r / 10) as nat, 2) } else { (r, 3) };
        let head = seq![decimal(k), dot];
        assert(head =~= seq![decimal(k)] + seq![dot]);
        lemma_concat_append(seq![decimal(k)], seq![dot]);
        lemma_concat_one(decimal(k));
        lemma_concat_one(dot);
        lemma_concat_append(head + padded_pieces(n, w), seq![kk]);
        lemma_concat_append(head, padded_pieces(n, w));
        lemma_concat_padded(n, w);
        lemma_concat_one(kk);
    }
}

/// Appending pieces that all fit appends their whole text.
proof fn lemma_append_fitting_all(out: Seq<u8>, ps: Seq<Seq<u8>>, cap: nat)
    requires
        out.len() + concat_pieces(ps).len() <= cap,
    ensures
        append_fitting(out, ps, cap) == out + concat_pieces(ps),
    decreases ps.len(),
{
    if ps.len() == 0 {
        assert(out + Seq::<u8>::empty() =~= out);
    } else {
        lemma_append_fitting_all(out + ps[0], ps.drop_first(), cap);
        assert(out + ps[0] + concat_pieces(ps.drop_first()) =~= out + (ps[0] + concat_pieces(ps.drop_first())));
    }
}

/// Ten to the power `d`.
spec fn power_of_ten(d: nat) -> nat
    decreases d,
{
    if d == 0 { 1 } else { 10 * power_of_ten((d - 1) as nat) }
}

proof fn lemma_decimal_len_below(n: nat, digits: nat)
    requires
        n < power_of_ten(digits),
        digits >= 1,
    ensures
        decimal(n).len() <= digits,
    decreases digits,
{
    if n >= 10 {
        if digits == 1 {
            assert(power_of_ten(0) == 1);
        } else {
            let b1 = power_of_ten((digits - 1) as nat);
            assert(n / 10 < b1) by (nonlinear_arith)
                requires n < 10 * b1;
            lemma_decimal_len_below(n / 10, (digits - 1) as nat);
        }
    }
}

/// A frequency's text is at most twelve bytes long (`4294967.295k`).
pub proof fn lemma_format_freq_len(freq: u32)
    ensures
        spec_format_freq(freq).len() <= 12,
{
    let k = (freq / 1000) as nat;
    let r = (freq % 1000) as nat;
    lemma_decimal_len(freq as nat);
    lemma_decimal_len(r / 100);
    lemma_decimal_len(r / 10);
    lemma_decimal_len(r);
    reveal_with_fuel(power_of_ten, 8);
    assert(power_of_ten(7) == 10_000_000);
    lemma_decimal_len_below(k, 7);
}

/// The pieces as byte sequences.
pub open spec fn piece_views(ps: Seq<Vec<u8>>) -> Seq<Seq<u8>> {
    Seq::new(ps.len(), |i: int| ps[i]@)
}

proof fn lemma_piece_views_push(ps: Seq<Vec<u8>>, v: Vec<u8>)
    ensures
        piece_views(ps.push(v)) == piece_views(ps).push(v@),
{
    assert(piece_views(ps.push(v)) =~= piece_views(ps).push(v@));
}

/// A buffer holding the one byte `b`.
fn one_byte(b: u8) -> (r: Vec<u8>)
    ensures
        r@ == seq![b],
{
    let mut v: Vec<u8> = Vec::new();
    v.push(b);
    proof {
        assert(v@ =~= seq![b]);
    }
    v
}

/// Appends `piece` to the pieces.
fn push_piece(ps: &mut Vec<Vec<u8>>, piece: Vec<u8>)
    ensures
        piece_views(final(ps)@) == piece_views(old(ps)@).push(piece@),
{
    proof {
        lemma_piece_views_push(ps@, piece);
    }
    ps.push(piece);
}

/// `n` in decimal as a new buffer.
fn decimal_vec(n: u32) -> (r: Vec<u8>)
    ensures
        r@ == decimal(n as nat),
{
    let mut v: Vec<u8> = Vec::new();
    push_decimal(&mut v, n);
    proof {
        assert(Seq::<u8>::empty() + decimal(n as nat) =~= decimal(n as nat));
    }
    v
}

/// Appends the pieces of `n` zero-padded to `width` digits (2 or 3).
fn push_padded_pieces(ps: &mut Vec<Vec<u8>>, n: u32, width: u32)
    requires
        width == 2 || width == 3,
        n < 1000,
    ensures
        piece_views(final(ps)@) == piece_views(old(ps)@) + padded_pieces(n as nat, width as nat),
{
    proof {
        lemma_decimal_len(n as nat);
    }
    let ghost before = piece_views(ps@);
    let ghost d = decimal(n as nat);
    let ghost pad: nat = if d.len() >= width { 0 } else { (width - d.len()) as nat };
    let ghost zero = seq![48u8];
    if width == 3 && n < 100 {
        push_piece(ps, one_byte(48));
    }
    if n < 10 {
        push_piece(ps, one_byte(48));
    }
    push_piece(ps, decimal_vec(n));
    proof {
        if pad == 0 {
            assert(piece_views(ps@) =~= before + Seq::new(pad, |i: int| seq![48u8]).push(d));
        } else if pad == 1 {
            assert(piece_views(ps@) =~= before + Seq::new(pad, |i: int| seq![48u8]).push(d));
        } else {
            assert(piece_views(ps@) =~= before + Seq::new(pad, |i: int| seq![48u8]).push(d));
        }
    }
}

/// The pieces of a frequency's text (see [`freq_pieces`]).
fn freq_pieces_vec(freq: u32) -> (r: Vec<Vec<u8>>)
    ensures
        piece_views(r@) == freq_pieces(freq),
{
    let mut ps: Vec<Vec<u8>> = Vec::new();
    proof {
        assert(piece_views(ps@) =~= Seq::<Seq<u8>>::empty());
    }
    if freq < 1000 {
        push_piece(&mut ps, decimal_vec(freq));
        proof {
            assert(piece_views(ps@) =~= freq_pieces(freq));
        }
        return ps;
    }
    let k = freq / 1000;
    let r = freq % 1000;
    push_piece(&mut ps, decimal_vec(k));
    if r == 0 {
        push_piece(&mut ps, one_byte(107));
        proof {
            assert(piece_views(ps@) =~= freq_pieces(freq));
        }
        return ps;
    }
    push_piece(&mut ps, one_byte(46));
    let ghost head = piece_views(ps@);
    proof {
        assert(head =~= seq![decimal(k as nat), seq![46u8]]);
    }
    if r % 100 == 0 {
        push_piece(&mut ps, decimal_vec(r / 100));
        push_piece(&mut ps, one_byte(107));
        proof {
            assert(piece_views(ps@) =~= freq_pieces(freq));
        }
    } else if r % 10 == 0 {
        push_padded_pieces(&mut ps, r / 10, 2);
        push_piece(&mut ps, one_byte(107));
        proof {
            assert(piece_views(ps@) =~= freq_pieces(freq));
        }
    } else {
        push_padded_pieces(&mut ps, r, 3);
        push_piece(&mut ps, one_byte(107));
        proof {
            assert(piece_views(ps@) =~= freq_pieces(freq));
        }
    }
    ps
}

/// Appends a frequency as the generator shows it (see [`spec_format_freq`])
/// to a reply line of [`REPLY_CAPACITY`] bytes. The text is written in
/// pieces (see [`freq_pieces`]); once a piece does not fit, it and the rest
/// are left out.
pub fn format_freq(freq: u32, out: &mut Vec<u8>)
    ensures
        final(out)@ == append_fitting(old(out)@, freq_pieces(freq), REPLY_CAPACITY as nat),
        old(out)@.len() + spec_format_freq(freq).len() <= REPLY_CAPACITY
            ==> final(out)@ == old(out)@ + spec_format_freq(freq),
{
    let ghost fits = old(out)@.len() + spec_format_freq(freq).len() <= REPLY_CAPACITY;
    assert(fits ==> append_fitting(old(out)@, freq_pieces(freq), REPLY_CAPACITY as nat)
        == old(out)@ + spec_format_freq(freq)) by {
        lemma_freq_pieces_concat(freq);
        if fits {
            lemma_append_fitting_all(old(out)@, freq_pieces(freq), REPLY_CAPACITY as nat);
        }
    }
    let ps = freq_pieces_vec(freq);
    let ghost pv = piece_views(ps@);
    proof {
        assert(pv.skip(0) =~= pv);
    }
    let mut i: usize = 0;
    while i < ps.len()
        invariant
            i <= ps@.len(),
            pv == piece_views(ps@),
            pv == freq_pieces(freq),
            append_fitting(old(out)@, pv, REPLY_CAPACITY as nat)
                == append_fitting(out@, pv.skip(i as int), REPLY_CAPACITY as nat),
            fits == (old(out)@.len() + spec_format_freq(freq).len() <= REPLY_CAPACITY),
            fits ==> append_fitting(old(out)@, freq_pieces(freq), REPLY_CAPACITY as nat)
                == old(out)@ + spec_format_freq(freq),
        decreases ps@.len() - i,
    {
        let piece = &ps[i];
        assert(pv.skip(i as int)[0] == piece@);
        if out.len() > REPLY_CAPACITY || piece.len() > REPLY_CAPACITY - out.len() {
            proof {
                assert(append_fitting(out@, pv.skip(i as int), REPLY_CAPACITY as nat) == out@);
            }
            return;
        }
        let ghost o = out@;
        let mut j: usize = 0;
        while j < piece.len()
            invariant
                j <= piece@.len(),
                out@ == o + piece@.take(j as int),
            decreases piece@.len() - j,
        {
            out.push(piece[j]);
            proof {
                assert(piece@.take(j + 1) =~= piece@.take(j as int).push(piece@[j as int]));
            }
            j = j + 1;
        }
        proof {
            assert(piece@.take(piece@.len() as int) =~= piece@);
            assert(pv.skip(i as int).drop_first() =~= pv.skip(i + 1));
        }
        i = i + 1;
    }
    proof {
        assert(pv.skip(i as int) =~= Seq::<Seq<u8>>::empty());
    }
}

/// `"Freq: "`.
pub open spec fn freq_label() -> Seq<u8> {
    seq![70u8, 114u8, 101u8, 113u8, 58u8, 32u8]
}

/// `"\r\n> "`: end of line and prompt.
pub open spec fn prompt() -> Seq<u8> {
    seq![13u8, 10u8, 62u8, 32u8]
}

/// `"\r\n"`.
pub open spec fn newline() -> Seq<u8> {
    seq![13u8, 10u8]
}

/// `"Invalid\r\n> "`.
pub open spec fn invalid_reply() -> Seq<u8> {
    seq![73u8, 110u8, 118u8, 97u8, 108u8, 105u8, 100u8] + prompt()
}

/// `"\x08 \x08"`: erases the last character on a terminal.
pub open spec fn erase_echo() -> Seq<u8> {
    seq![8u8, 32u8, 8u8]
}

/// The text sent when the serial connection comes up: the frequency in
/// plain hertz, then the prompt.
pub fn greeting(freq: u32) -> (r: Vec<u8>)
    ensures
        r@ == freq_label() + decimal(freq as nat) + prompt(),
{
    let mut out: Vec<u8> = Vec::new();
    push_all(&mut out, &[70u8, 114, 101, 113, 58, 32]);
    push_decimal(&mut out, freq);
    push_all(&mut out, &[13u8, 10, 62, 32]);
    proof {
        assert(out@ =~= freq_label() + decimal(freq as nat) + prompt());
    }
    out
}


/// Bytes the command buffer holds.
pub const CMD_CAPACITY: usize = 16;

/// The UTF-8 length of the character with code `c` (below 256).
pub open spec fn char_len(c: u8) -> int {
    if c < 128 { 1 } else { 2 }
}

/// The UTF-8 length of a text.
pub open spec fn text_len(s: Seq<u8>) -> int
    decreases s.len(),
{
    if s.len() == 0 { 0 } else { text_len(s.drop_last()) + char_len(s.last()) }
}

/// What the generator does with one received byte, given the command typed
/// so far and the frequency in use: the new command text, the bytes echoed
/// back, and the new frequency, if any.
///
/// - End of line (`\r` or `\n`) ends the command: the text is read as a
///   frequency, which is clamped to 100..=200000 Hz and reported, or
///   `Invalid` is answered; the command starts anew.
/// - Backspace or delete drops the last character, if any.
/// - Any other byte is taken as a character if it fits in the buffer, and
///   echoed.
pub open spec fn spec_key(chars: Seq<u8>, b: u8, current: u32) -> (Seq<u8>, Seq<u8>, Option<u32>) {
    if b == 13 || b == 10 {
        match spec_parse_freq(chars, current) {
            Some(v) => {
                let f = crate::music::spec_clamp_freq(v);
                (Seq::empty(), newline() + freq_label() + spec_format_freq(f) + prompt(), Some(f))
            },
            None => (Seq::empty(), newline() + invalid_reply(), None),
        }
    } else if b == 8 || b == 127 {
        if chars.len() > 0 {
            (chars.drop_last(), erase_echo(), None)
        } else {
            (chars, Seq::empty(), None)
        }
    } else if text_len(chars) + char_len(b) <= CMD_CAPACITY {
        (chars.push(b), seq![b], None)
    } else {
        (chars, Seq::empty(), None)
    }
}

/// Whatever is typed, a frequency the console applies lies within
/// 100..=200000 Hz, and only the end of a line applies one.
pub proof fn lemma_key_freq_in_range(chars: Seq<u8>, b: u8, current: u32)
    ensures
        spec_key(chars, b, current).2 matches Some(f) ==> 100 <= f <= 200000 && (b == 13 || b == 10),
{
}

/// Only the end of a line applies a frequency: the command parsed and
/// clamped to 100..=200000 Hz. The reply then reports the frequency applied,
/// not the one typed: `"\r\nFreq: "`, its text and `"\r\n> "`. A
/// command that does not parse applies nothing and is answered
/// `"\r\nInvalid\r\n> "`; either way the line is emptied.
pub proof fn lemma_key_reports_applied_freq(chars: Seq<u8>, b: u8, current: u32)
    ensures
        spec_key(chars, b, current).2 matches Some(f) ==> {
            &&& b == 13 || b == 10
            &&& spec_parse_freq(chars, current) matches Some(v)
            &&& f == (if v > 200000 { 200000 } else if v < 100 { 100 } else { v })
            &&& spec_key(chars, b, current).1 == seq![13u8, 10u8, 70u8, 114u8, 101u8, 113u8, 58u8, 32u8]
                + spec_format_freq(f) + seq![13u8, 10u8, 62u8, 32u8]
        },
        (b == 13 || b == 10) && spec_parse_freq(chars, current) is Some ==> spec_key(chars, b, current).2 is Some,
        (b == 13 || b == 10) && spec_parse_freq(chars, current) is None ==> {
            &&& spec_key(chars, b, current).2 is None
            &&& spec_key(chars, b, current).1 == seq![13u8, 10u8, 73u8, 110u8, 118u8, 97u8, 108u8, 105u8, 100u8, 13u8, 10u8, 62u8, 32u8]
        },
        b == 13 || b == 10 ==> spec_key(chars, b, current).0.len() == 0,
        !(b == 13 || b == 10) ==> spec_key(chars, b, current).2 is None,
{
    let r = spec_key(chars, b, current);
    if b == 13 || b == 10 {
        match spec_parse_freq(chars, current) {
            Some(v) => {
                let f = crate::music::spec_clamp_freq(v);
                assert(newline() + freq_label() + spec_format_freq(f) + prompt()
                    =~= seq![13u8, 10u8, 70u8, 114u8, 101u8, 113u8, 58u8, 32u8]
                    + spec_format_freq(f) + seq![13u8, 10u8, 62u8, 32u8]);
            },
            None => {
                assert(newline() + invalid_reply()
                    =~= seq![13u8, 10u8, 73u8, 110u8, 118u8, 97u8, 108u8, 105u8, 100u8, 13u8, 10u8, 62u8, 32u8]);
            },
        }
    }
}

/// What to send back and what to apply after one received byte.
pub struct KeyResponse {
    pub echo: Vec<u8>,
    pub new_freq: Option<u32>,
}

/// The command being typed on the generator's serial console.
pub struct CommandLine {
    chars: Vec<u8>,
    used: usize,
}

proof fn lemma_text_len_push(s: Seq<u8>, c: u8)
    ensures
        text_len(s.push(c)) == text_len(s) + char_len(c),
{
    assert(s.push(c).drop_last() =~= s);
}

proof fn lemma_text_len_bounds(s: Seq<u8>)
    ensures
        s.len() <= text_len(s) <= 2 * s.len(),
    decreases s.len(),
{
    if s.len() > 0 {
        lemma_text_len_bounds(s.drop_last());
    }
}

impl CommandLine {
    pub closed spec fn text(&self) -> Seq<u8> {
        self.chars@
    }

    pub closed spec fn wf(&self) -> bool {
        &&& self.used == text_len(self.chars@)
        &&& self.used <= CMD_CAPACITY
    }

    pub fn new() -> (r: Self)
        ensures
            r.wf(),
            r.text() == Seq::<u8>::empty(),
    {
        CommandLine { chars: Vec::new(), used: 0 }
    }

    /// Handles one received byte (see [`spec_key`]); `current` is the
    /// frequency in use.
    pub fn key(&mut self, b: u8, current: u32) -> (r: KeyResponse)
        requires
            old(self).wf(),
        ensures
            final(self).wf(),
            (final(self).text(), r.echo@, r.new_freq) == spec_key(old(self).text(), b, current),
    {
        let mut echo: Vec<u8> = Vec::new();
        if b == 13 || b == 10 {
            push_all(&mut echo, &[13u8, 10]);
            proof {
                lemma_text_len_bounds(self.chars@);
                lemma_divisor_ok_short(self.chars@);
            }
            let parsed = parse_freq(self.chars.as_slice(), current);
            let new_freq = match parsed {
                Some(v) => {
                    let f = crate::music::clamp_freq(v);
                    let mut line: Vec<u8> = Vec::new();
                    push_all(&mut line, &[70u8, 114, 101, 113, 58, 32]);
                    proof {
                        lemma_format_freq_len(f);
                        assert(line@ =~= freq_label());
                    }
                    format_freq(f, &mut line);
                    push_all(&mut line, &[13u8, 10, 62, 32]);
                    push_all(&mut echo, line.as_slice());
                    proof {
                        assert(echo@ =~= newline() + freq_label() + spec_format_freq(f) + prompt());
                    }
                    Some(f)
                },
                None => {
                    push_all(&mut echo, &[73u8, 110, 118, 97, 108, 105, 100, 13, 10, 62, 32]);
                    proof {
                        assert(echo@ =~= newline() + invalid_reply());
                    }
                    None
                },
            };
            self.chars.clear();
            self.used = 0;
            proof {
                assert(self.chars@ =~= Seq::<u8>::empty());
            }
            KeyResponse { echo, new_freq }
        } else if b == 8 || b == 127 {
            if self.chars.len() > 0 {
                let ghost before = self.chars@;
                let c = self.chars.pop().unwrap();
                proof {
                    assert(before.drop_last() =~= self.chars@);
                    assert(before == self.chars@.push(c));
                    lemma_text_len_push(self.chars@, c);
                    lemma_text_len_bounds(self.chars@);
                }
                self.used = self.used - if c < 128 { 1 } else { 2 };
                push_all(&mut echo, &[8u8, 32, 8]);
                proof {
                    assert(echo@ =~= erase_echo());
                }
            } else {
                proof {
                    assert(echo@ =~= Seq::<u8>::empty());
                }
            }
            KeyResponse { echo, new_freq: None }
        } else {
            let len = if b < 128 { 1 } else { 2 };
            if self.used + len <= CMD_CAPACITY {
                proof {
                    lemma_text_len_push(self.chars@, b);
                }
                self.chars.push(b);
                self.used = self.used + len;
                echo.push(b);
                proof {
                    assert(echo@ =~= seq![b]);
                }
            } else {
                proof {
                    assert(echo@ =~= Seq::<u8>::empty());
                }
            }
            KeyResponse { echo, new_freq: None }
        }
    }
}


proof fn lemma_decimal_digits(n: nat)
    ensures
        all_digits(decimal(n)),
        digits_value(decimal(n)) == n,
        decimal(n).len() >= 1,
    decreases n,
{
    if n < 10 {
        let c = (48 + n) as u8;
        assert(decimal(n) == seq![c]);
        assert(seq![c].drop_last() =~= Seq::<u8>::empty());
        assert(seq![c].last() == c);
        assert(c == 48 + n);
        assert(digits_value(seq![c]) == digits_value(Seq::<u8>::empty()) * 10 + (c - 48));
    } else {
        lemma_decimal_digits(n / 10);
        let d = decimal(n / 10);
        let c = (48 + n % 10) as u8;
        lemma_digits_value_push(d, c);
        assert(decimal(n) == d.push(c));
        assert(c - 48 == n % 10);
        vstd::arithmetic::div_mod::lemma_fundamental_div_mod(n as int, 10);
        assert(digits_value(decimal(n)) == (n / 10) * 10 + n % 10);
        assert forall|i: int| 0 <= i < decimal(n).len() implies #[trigger] is_digit(decimal(n)[i]) by {
            if i < d.len() {
                assert(decimal(n)[i] == d[i]);
            }
        }
    }
}

proof fn lemma_leading_zeros(m: nat, d: Seq<u8>)
    ensures
        digits_value(Seq::new(m, |i: int| 48u8) + d) == digits_value(d),
    decreases d.len(), m,
{
    let z = Seq::new(m, |i: int| 48u8);
    if d.len() == 0 {
        assert(z + d =~= z);
        if m > 0 {
            assert(z.drop_last() =~= Seq::new((m - 1) as nat, |i: int| 48u8));
            lemma_leading_zeros((m - 1) as nat, d);
            assert(Seq::new((m - 1) as nat, |i: int| 48u8) + d =~= Seq::new((m - 1) as nat, |i: int| 48u8));
        }
    } else {
        assert((z + d).drop_last() =~= z + d.drop_last());
        lemma_leading_zeros(m, d.drop_last());
    }
}

proof fn lemma_zero_padded(n: nat, width: nat)
    requires
        decimal(n).len() <= width,
    ensures
        all_digits(zero_padded(n, width)),
        digits_value(zero_padded(n, width)) == n,
        zero_padded(n, width).len() == width,
{
    lemma_decimal_digits(n);
    let d = decimal(n);
    if d.len() < width {
        let m = (width - d.len()) as nat;
        lemma_leading_zeros(m, d);
        let zp = Seq::new(m, |i: int| 48u8) + d;
        assert forall|i: int| 0 <= i < zp.len() implies #[trigger] is_digit(zp[i]) by {
            if i >= m {
                assert(zp[i] == d[i - m]);
            }
        }
    }
}

/// Searching past a prefix that holds neither character.
proof fn lemma_find_either_skip(x: Seq<u8>, y: Seq<u8>, a: u8, b: u8)
    requires
        forall|i: int| 0 <= i < x.len() ==> x[i] != a && x[i] != b,
    ensures
        find_either(x + y, a, b) == (match find_either(y, a, b) {
            Some(i) => Some(i + x.len()),
            None => None,
        }),
    decreases x.len(),
{
    if x.len() == 0 {
        assert(x + y =~= y);
    } else {
        assert((x + y).drop_first() =~= x.drop_first() + y);
        assert((x + y)[0] == x[0]);
        lemma_find_either_skip(x.drop_first(), y, a, b);
    }
}

proof fn lemma_digits_free_of(d: Seq<u8>, a: u8, b: u8)
    requires
        all_digits(d),
        !is_digit(a),
        !is_digit(b),
    ensures
        forall|i: int| 0 <= i < d.len() ==> d[i] != a && d[i] != b,
{
    assert forall|i: int| 0 <= i < d.len() implies d[i] != a && d[i] != b by {
        assert(is_digit(d[i]));
    }
}

proof fn lemma_parse_digits(d: Seq<u8>)
    requires
        d.len() > 0,
        all_digits(d),
        digits_value(d) <= u32::MAX,
    ensures
        parse_u32(d) == Some(digits_value(d) as u32),
{
    assert(is_digit(d[0]));
}

proof fn lemma_round_trip_plain(freq: u32, current: u32)
    requires
        freq < 1000,
    ensures
        spec_parse_freq(spec_format_freq(freq), current) == Some(freq),
{
    lemma_decimal_digits(freq as nat);
    let d = decimal(freq as nat);
    assert(is_digit(d[0]) && is_digit(d.last()));
    assert(trim(d) == d);
    lemma_digits_free_of(d, 107, 75);
    lemma_find_either_skip(d, Seq::<u8>::empty(), 107, 75);
    assert(d + Seq::<u8>::empty() =~= d);
    lemma_digits_free_of(d, 46, 46);
    lemma_find_either_skip(d, Seq::<u8>::empty(), 46, 46);
    lemma_parse_digits(d);
}

proof fn lemma_round_trip_whole_kilo(k: nat, current: u32)
    requires
        1 <= k,
        k * 1000 <= u32::MAX,
    ensures
        spec_parse_freq(decimal(k) + seq![107u8], current) == Some((k * 1000) as u32),
{
    lemma_decimal_digits(k);
    let dk = decimal(k);
    let s = dk + seq![107u8];
    assert(is_digit(dk[0]));
    assert(s[0] == dk[0]);
    assert(trim(s) == s);
    lemma_digits_free_of(dk, 107, 75);
    lemma_digits_free_of(dk, 46, 46);
    lemma_parse_digits(dk);
    lemma_find_either_skip(dk, seq![107u8], 107, 75);
    assert(s.take(dk.len() as int) =~= dk);
    lemma_find_either_skip(dk, Seq::<u8>::empty(), 46, 46);
    assert(dk + Seq::<u8>::empty() =~= dk);
    assert(s.skip(dk.len() as int + 1) =~= Seq::<u8>::empty());
}

proof fn lemma_round_trip_fraction(k: nat, frac: Seq<u8>, digits: nat, fv: nat, r: nat, current: u32)
    requires
        1 <= k,
        k * 1000 + r <= u32::MAX,
        1 <= digits <= 3,
        pow10_wrapped(digits) > 0,
        (fv * 1000) as int / (pow10_wrapped(digits) as int) == r,
        frac.len() == digits,
        all_digits(frac),
        digits_value(frac) == fv,
        fv * 1000 <= u32::MAX,
    ensures
        spec_parse_freq(decimal(k) + seq![46u8] + frac + seq![107u8], current) == Some((k * 1000 + r) as u32),
{
    lemma_decimal_digits(k);
    let dk = decimal(k);
    lemma_parse_digits(dk);
    lemma_parse_digits(frac);
    let body = dk + seq![46u8] + frac;
    let s = body + seq![107u8];
    assert(is_digit(dk[0]));
    assert(s[0] == dk[0]);
    assert(trim(s) == s);
    assert forall|i: int| 0 <= i < body.len() implies body[i] != 107 && body[i] != 75 by {
        if i < dk.len() {
            assert(is_digit(dk[i]));
        } else if i > dk.len() {
            assert(body[i] == frac[i - dk.len() - 1]);
            assert(is_digit(frac[i - dk.len() - 1]));
        }
    }
    lemma_find_either_skip(body, seq![107u8], 107, 75);
    assert(s.take(body.len() as int) =~= body);
    assert(dk + (seq![46u8] + frac) =~= body);
    lemma_digits_free_of(dk, 46, 46);
    lemma_find_either_skip(dk, seq![46u8] + frac, 46, 46);
    assert(body.take(dk.len() as int) =~= dk);
    assert(body.skip(dk.len() as int + 1) =~= frac);
}

/// Reading back a shown frequency gives the frequency: the generator's
/// report of a frequency, typed as a command, asks for that same frequency.
pub proof fn lemma_format_parse_round_trip(freq: u32, current: u32)
    ensures
        spec_parse_freq(spec_format_freq(freq), current) == Some(freq),
{
    if freq < 1000 {
        lemma_round_trip_plain(freq, current);
    } else {
        let k = (freq / 1000) as nat;
        let r = (freq % 1000) as nat;
        assert(k * 1000 + r == freq);
        if r == 0 {
            lemma_round_trip_whole_kilo(k, current);
        } else {
            assert(pow10_wrapped(0) == 1);
            assert(pow10_wrapped(1) == 10);
            assert(pow10_wrapped(2) == 100);
            assert(pow10_wrapped(3) == 1000);
            lemma_decimal_len(r / 100);
            lemma_decimal_len(r / 10);
            lemma_decimal_len(r);
            if r % 100 == 0 {
                lemma_decimal_digits(r / 100);
                lemma_round_trip_fraction(k, decimal(r / 100), 1, r / 100, r, current);
            } else if r % 10 == 0 {
                lemma_zero_padded(r / 10, 2);
                lemma_round_trip_fraction(k, zero_padded(r / 10, 2), 2, r / 10, r, current);
            } else {
                lemma_zero_padded(r, 3);
                lemma_round_trip_fraction(k, zero_padded(r, 3), 3, r, r, current);
            }
        }
    }
}

} // verus!
