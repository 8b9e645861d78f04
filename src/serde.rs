//! Durations on the wire: decimal numerals of seconds or of milliseconds,
//! read and written exactly against the library's whole milliseconds.

use vstd::prelude::*;
use vstd::string::StrSliceExecFns;

pub mod as_millis_optional_tuple;
pub mod as_secs;
pub mod as_secs_optional;

verus! {

pub open spec fn is_digit(c: char) -> bool {
    '0' <= c && c <= '9'
}

pub open spec fn digit_value(c: char) -> int {
    c as int - '0' as int
}

pub open spec fn all_digits(s: Seq<char>) -> bool {
    forall|i: int| 0 <= i < s.len() ==> is_digit(#[trigger] s[i])
}

/// Value of a run of decimal digits.
pub open spec fn digits_value(s: Seq<char>) -> int
    decreases s.len(),
{
    if s.len() == 0 {
        0
    } else {
        digits_value(s.drop_last()) * 10 + digit_value(s.last())
    }
}

pub open spec fn pow10(n: nat) -> int
    decreases n,
{
    if n == 0 {
        1
    } else {
        10 * pow10((n - 1) as nat)
    }
}

/// Index of the first `.` of `s` at `i` or later, or the length.
pub open spec fn dot_from(s: Seq<char>, i: int) -> int
    decreases s.len() - i,
{
    if i >= s.len() || i < 0 {
        s.len() as int
    } else if s[i] == '.' {
        i
    } else {
        dot_from(s, i + 1)
    }
}

/// `s` is a numeral: digits, then maybe a point and more digits.
pub open spec fn numeral_ok(s: Seq<char>) -> bool {
    let k = dot_from(s, 0);
    &&& k >= 1
    &&& all_digits(s.subrange(0, k))
    &&& (k == s.len() || (k + 1 < s.len() && all_digits(s.subrange(k + 1, s.len() as int))))
}

/// The numeral `s` times `10^scale`, its further decimals dropped.
pub open spec fn scaled_value(s: Seq<char>, scale: nat) -> int {
    let k = dot_from(s, 0);
    let whole = digits_value(s.subrange(0, k)) * pow10(scale);
    if k >= s.len() {
        whole
    } else {
        let f = s.subrange(k + 1, s.len() as int);
        let t = if f.len() < scale {
            f.len()
        } else {
            scale
        };
        whole + digits_value(f.subrange(0, t as int)) * pow10((scale - t) as nat)
    }
}

/// What reading `s` at `scale` yields: its value, when it is a numeral
/// whose value fits.
pub open spec fn read_numeral(s: Seq<char>, scale: nat) -> Option<u64> {
    if numeral_ok(s) && scaled_value(s, scale) <= u64::MAX {
        Some(scaled_value(s, scale) as u64)
    } else {
        None
    }
}

pub open spec fn digit_char(d: int) -> char {
    ('0' as int + d) as char
}

/// The decimal digits of `n`, without leading zeros.
pub open spec fn decimal(n: nat) -> Seq<char>
    decreases n,
{
    if n < 10 {
        seq![digit_char(n as int)]
    } else {
        decimal(n / 10).push(digit_char((n % 10) as int))
    }
}

/// The decimals of a thousandth count `f` in `1..1000`, trailing zeros
/// dropped.
pub open spec fn thousandths(f: nat) -> Seq<char> {
    let d1 = digit_char((f / 100) as int);
    let d2 = digit_char(((f / 10) % 10) as int);
    let d3 = digit_char((f % 10) as int);
    if f % 10 != 0 {
        seq![d1, d2, d3]
    } else if (f / 10) % 10 != 0 {
        seq![d1, d2]
    } else {
        seq![d1]
    }
}

/// `ms` milliseconds written in seconds: whole seconds, then the
/// significant decimals, if any.
pub open spec fn seconds_text(ms: nat) -> Seq<char> {
    if ms % 1000 == 0 {
        decimal(ms / 1000)
    } else {
        decimal(ms / 1000) + seq!['.'] + thousandths(ms % 1000)
    }
}

/// Relies on `String::push`: appends one character.
#[verifier::external_body]
fn push_char(s: &mut String, c: char)
    ensures
        final(s)@ == old(s)@.push(c),
{
    s.push(c)
}

fn digit_to_char(d: u64) -> (c: char)
    requires
        d < 10,
    ensures
        c == digit_char(d as int),
{
    if d == 0 {
        '0'
    } else if d == 1 {
        '1'
    } else if d == 2 {
        '2'
    } else if d == 3 {
        '3'
    } else if d == 4 {
        '4'
    } else if d == 5 {
        '5'
    } else if d == 6 {
        '6'
    } else if d == 7 {
        '7'
    } else if d == 8 {
        '8'
    } else {
        '9'
    }
}

/// Appends the decimal digits of `n`.
pub(crate) fn push_decimal(out: &mut String, n: u64)
    ensures
        final(out)@ == old(out)@ + decimal(n as nat),
    decreases n,
{
    if n >= 10 {
        push_decimal(out, n / 10);
    }
    push_char(out, digit_to_char(n % 10));
    proof {
        if n >= 10 {
            assert(decimal(n as nat) == decimal((n / 10) as nat).push(digit_char((n % 10) as int)));
        }
    }
}

/// Writes `ms` milliseconds as seconds.
pub(crate) fn write_seconds(ms: u64) -> (r: String)
    ensures
        r@ == seconds_text(ms as nat),
{
    let mut out = String::new();
    push_decimal(&mut out, ms / 1000);
    let f = ms % 1000;
    if f != 0 {
        push_char(&mut out, '.');
        push_char(&mut out, digit_to_char(f / 100));
        if f % 10 != 0 {
            push_char(&mut out, digit_to_char((f / 10) % 10));
            push_char(&mut out, digit_to_char(f % 10));
        } else if (f / 10) % 10 != 0 {
            push_char(&mut out, digit_to_char((f / 10) % 10));
        }
    }
    proof {
        if f != 0 {
            assert(out@ =~= seconds_text(ms as nat));
        }
    }
    out
}

/// Writes a count in decimal.
pub(crate) fn write_decimal(n: u64) -> (r: String)
    ensures
        r@ == decimal(n as nat),
{
    let mut out = String::new();
    push_decimal(&mut out, n);
    proof {
        assert(out@ =~= decimal(n as nat));
    }
    out
}

proof fn lemma_digits_nonneg(t: Seq<char>)
    requires
        all_digits(t),
    ensures
        digits_value(t) >= 0,
    decreases t.len(),
{
    if t.len() > 0 {
        assert(all_digits(t.drop_last())) by {
            assert forall|i: int| 0 <= i < t.drop_last().len() implies is_digit(#[trigger] t.drop_last()[i]) by {
                assert(t.drop_last()[i] == t[i]);
            }
        }
        lemma_digits_nonneg(t.drop_last());
        assert(is_digit(t[t.len() - 1]));
    }
}

/// More digits never make a smaller value.
proof fn lemma_digits_grow(t: Seq<char>, j: int)
    requires
        all_digits(t),
        0 <= j <= t.len(),
    ensures
        digits_value(t.subrange(0, j)) <= digits_value(t),
    decreases t.len(),
{
    if j < t.len() {
        let u = t.drop_last();
        assert(all_digits(u)) by {
            assert forall|i: int| 0 <= i < u.len() implies is_digit(#[trigger] u[i]) by {
                assert(u[i] == t[i]);
            }
        }
        lemma_digits_grow(u, j);
        assert(u.subrange(0, j) =~= t.subrange(0, j));
        lemma_digits_nonneg(u);
        assert(is_digit(t[t.len() - 1]));
    } else {
        assert(t.subrange(0, j) =~= t);
    }
}

fn pow10_small(n: u64) -> (r: u64)
    requires
        n <= 3,
    ensures
        r == pow10(n as nat),
{
    proof {
        reveal_with_fuel(pow10, 4);
    }
    if n == 0 {
        1
    } else if n == 1 {
        10
    } else if n == 2 {
        100
    } else {
        1000
    }
}

/// Reads the digits `s[from..to]`: their value, when all are digits and
/// it fits.
fn read_digits(s: &str, from: usize, to: usize) -> (r: Option<u64>)
    requires
        from <= to <= s@.len(),
    ensures
        r == if all_digits(s@.subrange(from as int, to as int)) && digits_value(
            s@.subrange(from as int, to as int),
        ) <= u64::MAX {
            Some(digits_value(s@.subrange(from as int, to as int)) as u64)
        } else {
            None::<u64>
        },
{
    let ghost t = s@.subrange(from as int, to as int);
    let mut acc: u64 = 0;
    let mut i: usize = from;
    while i < to
        invariant
            from <= i <= to <= s@.len(),
            t == s@.subrange(from as int, to as int),
            all_digits(s@.subrange(from as int, i as int)),
            acc == digits_value(s@.subrange(from as int, i as int)),
        decreases to - i,
    {
        let c = s.get_char(i);
        if !('0' <= c && c <= '9') {
            proof {
                assert(t[i - from] == c);
            }
            return None;
        }
        let d = (c as u32 - '0' as u32) as u64;
        let ghost pre = s@.subrange(from as int, i as int);
        let ghost post = s@.subrange(from as int, i + 1);
        proof {
            assert(post.drop_last() =~= pre);
            assert(post.last() == c);
            assert(all_digits(post)) by {
                assert forall|j: int| 0 <= j < post.len() implies is_digit(#[trigger] post[j]) by {
                    if j < pre.len() {
                        assert(post[j] == pre[j]);
                    }
                }
            }
        }
        let next = match acc.checked_mul(10) {
            Some(v) => v.checked_add(d),
            None => None,
        };
        match next {
            Some(v) => {
                acc = v;
            },
            None => {
                proof {
                    if all_digits(t) {
                        assert(t.subrange(0, i + 1 - from) =~= post);
                        lemma_digits_grow(t, i + 1 - from);
                    }
                }
                return None;
            },
        }
        i = i + 1;
    }
    proof {
        assert(s@.subrange(from as int, i as int) =~= t);
    }
    Some(acc)
}

/// Index of the first `.` of `s`, or its length.
fn find_dot(s: &str) -> (k: usize)
    ensures
        k == dot_from(s@, 0),
{
    let n = s.unicode_len();
    let mut k: usize = 0;
    while k < n
        invariant
            n == s@.len(),
            k <= n,
            dot_from(s@, 0) == dot_from(s@, k as int),
        decreases n - k,
    {
        if s.get_char(k) == '.' {
            return k;
        }
        k = k + 1;
    }
    k
}

/// Reads the numeral `s` at `scale` (at most 3 decimals kept).
pub(crate) fn read_scaled(s: &str, scale: u64) -> (r: Option<u64>)
    requires
        scale <= 3,
    ensures
        r == read_numeral(s@, scale as nat),
{
    let n = s.unicode_len();
    let k = find_dot(s);
    proof {
        lemma_dot_bound(s@, 0);
    }
    if k == 0 {
        return None;
    }
    let whole = match read_digits(s, 0, k) {
        Some(w) => w,
        None => {
            proof {
                let w = s@.subrange(0, k as int);
                if numeral_ok(s@) {
                    lemma_digits_nonneg(w);
                    lemma_pow10_pos(scale as nat);
                    lemma_frac_nonneg(s@, scale as nat);
                    let dv = digits_value(w);
                    let pw = pow10(scale as nat);
                    assert(dv * pw >= dv) by (nonlinear_arith)
                        requires
                            dv >= 0,
                            pw >= 1,
                    ;
                }
            }
            return None;
        },
    };
    let ghost w = s@.subrange(0, k as int);
    proof {
        lemma_digits_nonneg(w);
    }
    let p = pow10_small(scale);
    let whole_scaled = match whole.checked_mul(p) {
        Some(v) => v,
        None => {
            proof {
                lemma_frac_nonneg(s@, scale as nat);
                assert(whole as int == digits_value(s@.subrange(0, k as int)));
                assert(p as int == pow10(scale as nat));
                assert(whole as int * p as int > u64::MAX);
            }
            return None;
        },
    };
    if k == n {
        return Some(whole_scaled);
    }
    if k + 1 >= n {
        return None;
    }
    if !all_digits_in(s, k + 1, n) {
        return None;
    }
    let flen = n - (k + 1);
    let t = if flen < scale as usize {
        flen
    } else {
        scale as usize
    };
    let fv = match read_digits(s, k + 1, k + 1 + t) {
        Some(v) => v,
        None => {
            proof {
                lemma_short_digits(s@.subrange(k + 1, k + 1 + t as int));
            }
            return None;
        },
    };
    proof {
        lemma_short_digits(s@.subrange(k + 1, k + 1 + t as int));
        let f = s@.subrange(k + 1, n as int);
        assert(f.subrange(0, t as int) =~= s@.subrange(k + 1, k + 1 + t as int));
    }
    let q = pow10_small(scale - t as u64);
    proof {
        reveal_with_fuel(pow10, 4);
        assert(fv < 1000);
        assert(q <= 1000);
        assert(fv * q < 1000000) by (nonlinear_arith)
            requires
                fv < 1000,
                q <= 1000,
        ;
    }
    let frac = fv * q;
    whole_scaled.checked_add(frac)
}

proof fn lemma_dot_bound(s: Seq<char>, i: int)
    requires
        0 <= i <= s.len(),
    ensures
        i <= dot_from(s, i) <= s.len(),
        dot_from(s, i) < s.len() ==> s[dot_from(s, i)] == '.',
        forall|j: int| i <= j < dot_from(s, i) ==> s[j] != '.',
    decreases s.len() - i,
{
    if i < s.len() && s[i] != '.' {
        lemma_dot_bound(s, i + 1);
    }
}

/// Three digits or fewer always fit.
proof fn lemma_short_digits(t: Seq<char>)
    requires
        t.len() <= 3,
        all_digits(t),
    ensures
        0 <= digits_value(t) < pow10(t.len()),
    decreases t.len(),
{
    if t.len() > 0 {
        let u = t.drop_last();
        assert(all_digits(u)) by {
            assert forall|i: int| 0 <= i < u.len() implies is_digit(#[trigger] u[i]) by {
                assert(u[i] == t[i]);
            }
        }
        lemma_short_digits(u);
        assert(is_digit(t[t.len() - 1]));
        assert(pow10(t.len()) == 10 * pow10(u.len()));
    }
}

proof fn lemma_frac_nonneg(s: Seq<char>, scale: nat)
    ensures
        dot_from(s, 0) < s.len() && numeral_ok(s) ==> scaled_value(s, scale) >= digits_value(s.subrange(0, dot_from(s, 0))) * pow10(scale),
{
    let k = dot_from(s, 0);
    if k < s.len() && numeral_ok(s) {
        let f = s.subrange(k + 1, s.len() as int);
        let t = if f.len() < scale { f.len() } else { scale };
        assert(all_digits(f.subrange(0, t as int))) by {
            assert forall|i: int| 0 <= i < t implies is_digit(#[trigger] f.subrange(0, t as int)[i]) by {
                assert(f.subrange(0, t as int)[i] == f[i]);
            }
        }
        lemma_digits_nonneg(f.subrange(0, t as int));
        lemma_pow10_pos((scale - t) as nat);
    }
}

proof fn lemma_pow10_pos(n: nat)
    ensures
        pow10(n) >= 1,
    decreases n,
{
    if n > 0 {
        lemma_pow10_pos((n - 1) as nat);
    }
}

/// Whether `s[from..to]` holds only digits.
fn all_digits_in(s: &str, from: usize, to: usize) -> (r: bool)
    requires
        from <= to <= s@.len(),
    ensures
        r == all_digits(s@.subrange(from as int, to as int)),
{
    let mut i: usize = from;
    while i < to
        invariant
            from <= i <= to <= s@.len(),
            forall|j: int| from <= j < i ==> is_digit(#[trigger] s@[j]),
        decreases to - i,
    {
        let c = s.get_char(i);
        if !('0' <= c && c <= '9') {
            proof {
                assert(s@.subrange(from as int, to as int)[i - from] == c);
            }
            return false;
        }
        i = i + 1;
    }
    proof {
        assert forall|j: int| 0 <= j < to - from implies is_digit(#[trigger] s@.subrange(from as int, to as int)[j]) by {
            assert(s@.subrange(from as int, to as int)[j] == s@[from + j]);
        }
    }
    true
}

proof fn lemma_digit_char(d: int)
    requires
        0 <= d < 10,
    ensures
        is_digit(digit_char(d)),
        digit_value(digit_char(d)) == d,
        digit_char(d) != '.',
{
}

proof fn lemma_decimal(n: nat)
    ensures
        decimal(n).len() >= 1,
        all_digits(decimal(n)),
        digits_value(decimal(n)) == n,
    decreases n,
{
    if n < 10 {
        lemma_digit_char(n as int);
        let t = seq![digit_char(n as int)];
        assert(t.drop_last() =~= Seq::<char>::empty());
        assert(digits_value(t) == digits_value(t.drop_last()) * 10 + digit_value(t.last()));
    } else {
        lemma_decimal(n / 10);
        lemma_digit_char((n % 10) as int);
        let s = decimal(n / 10);
        let t = s.push(digit_char((n % 10) as int));
        assert(t.drop_last() =~= s);
        assert(t.last() == digit_char((n % 10) as int));
        assert(digits_value(t) == digits_value(s) * 10 + digit_value(t.last()));
        assert(digits_value(t) == (n / 10) * 10 + n % 10);
        assert forall|i: int| 0 <= i < t.len() implies is_digit(#[trigger] t[i]) by {
            if i < s.len() {
                assert(t[i] == s[i]);
            }
        }
    }
}

/// No point among `s[i..k]`: the first point from `i` is the first from `k`.
proof fn lemma_dot_skip(s: Seq<char>, i: int, k: int)
    requires
        0 <= i <= k <= s.len(),
        forall|j: int| i <= j < k ==> s[j] != '.',
    ensures
        dot_from(s, i) == dot_from(s, k),
    decreases k - i,
{
    if i < k {
        lemma_dot_skip(s, i + 1, k);
    }
}

proof fn lemma_thousandths(f: nat)
    requires
        1 <= f < 1000,
    ensures
        1 <= thousandths(f).len() <= 3,
        all_digits(thousandths(f)),
        digits_value(thousandths(f)) * pow10((3 - thousandths(f).len()) as nat) == f,
{
    let a = (f / 100) as int;
    let b = ((f / 10) % 10) as int;
    let c = (f % 10) as int;
    lemma_digit_char(a);
    lemma_digit_char(b);
    lemma_digit_char(c);
    reveal_with_fuel(pow10, 4);
    let t = thousandths(f);
    assert(f == 100 * a + 10 * b + c);
    let t1 = seq![digit_char(a)];
    let t2 = seq![digit_char(a), digit_char(b)];
    let t3 = seq![digit_char(a), digit_char(b), digit_char(c)];
    assert(t1.drop_last() =~= Seq::<char>::empty());
    assert(t2.drop_last() =~= t1);
    assert(t3.drop_last() =~= t2);
    assert(digits_value(t1) == digits_value(t1.drop_last()) * 10 + digit_value(t1.last()));
    assert(digits_value(t2) == digits_value(t2.drop_last()) * 10 + digit_value(t2.last()));
    assert(digits_value(t3) == digits_value(t3.drop_last()) * 10 + digit_value(t3.last()));
    assert(digits_value(t1) == a);
    assert(digits_value(t2) == 10 * a + b);
    assert(digits_value(t3) == 100 * a + 10 * b + c);
    if c != 0 {
        assert(t == t3);
        assert(pow10(0) == 1);
        assert(digits_value(t) * pow10((3 - t.len()) as nat) == f);
    } else if b != 0 {
        assert(t == t2);
        assert(pow10(1) == 10);
        assert(digits_value(t) * pow10((3 - t.len()) as nat) == f);
    } else {
        assert(t == t1);
        assert(pow10(2) == 100);
        assert(t.len() == 1);
        assert(f == 100 * a);
        assert(digits_value(t) * 100 == f);
        assert(digits_value(t) * pow10((3 - t.len()) as nat) == f);
    }
}

/// Writing a duration in seconds and reading it back gives the duration.
pub proof fn law_seconds_round_trip(ms: u64)
    ensures
        read_numeral(seconds_text(ms as nat), 3) == Some(ms),
{
    let q = (ms / 1000) as nat;
    let f = (ms % 1000) as nat;
    assert(ms == q * 1000 + f);
    lemma_decimal(q);
    if f == 0 {
        lemma_round_trip_whole(q);
    } else {
        lemma_round_trip_fraction(q, f);
    }
}

proof fn lemma_round_trip_whole(q: nat)
    requires
        decimal(q).len() >= 1,
        all_digits(decimal(q)),
        digits_value(decimal(q)) == q,
    ensures
        numeral_ok(decimal(q)),
        scaled_value(decimal(q), 3) == q * 1000,
{
    let d = decimal(q);
    reveal_with_fuel(pow10, 4);
    assert forall|j: int| 0 <= j < d.len() implies d[j] != '.' by {
        assert(is_digit(d[j]));
    }
    lemma_dot_skip(d, 0, d.len() as int);
    assert(dot_from(d, 0) == d.len());
    assert(d.subrange(0, d.len() as int) =~= d);
}

proof fn lemma_round_trip_fraction(q: nat, f: nat)
    requires
        1 <= f < 1000,
        decimal(q).len() >= 1,
        all_digits(decimal(q)),
        digits_value(decimal(q)) == q,
    ensures
        numeral_ok(decimal(q) + seq!['.'] + thousandths(f)),
        scaled_value(decimal(q) + seq!['.'] + thousandths(f), 3) == q * 1000 + f,
{
    let d = decimal(q);
    let t = thousandths(f);
    lemma_thousandths(f);
    let s = d + seq!['.'] + t;
    reveal_with_fuel(pow10, 4);
    assert forall|j: int| 0 <= j < d.len() implies s[j] != '.' by {
        assert(s[j] == d[j]);
        assert(is_digit(d[j]));
    }
    lemma_dot_skip(s, 0, d.len() as int);
    assert(s[d.len() as int] == '.');
    assert(dot_from(s, 0) == d.len());
    assert(s.subrange(0, d.len() as int) =~= d);
    assert(s.subrange(d.len() as int + 1, s.len() as int) =~= t);
    assert(t.subrange(0, t.len() as int) =~= t);
}

/// Writing a count of milliseconds and reading it back gives the count.
pub proof fn law_millis_round_trip(ms: u64)
    ensures
        read_numeral(decimal(ms as nat), 0) == Some(ms),
{
    let d = decimal(ms as nat);
    lemma_decimal(ms as nat);
    assert forall|j: int| 0 <= j < d.len() implies d[j] != '.' by {
        assert(is_digit(d[j]));
    }
    lemma_dot_skip(d, 0, d.len() as int);
    assert(d.subrange(0, d.len() as int) =~= d);
    assert(pow10(0) == 1);
}

} // verus!
