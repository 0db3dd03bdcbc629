//! The line-oriented text that samples are exported in: one sample per line,
//! as seconds with nine decimal places (`0.001234500`).
use vstd::prelude::*;

verus! {

/// Nanoseconds in a second.
pub const NANOS_PER_SEC: u64 = 1_000_000_000;

/// The ASCII digit for `d`.
pub open spec fn digit(d: nat) -> u8 {
    (48 + d) as u8
}

/// `n` in decimal, without leading zeros.
pub open spec fn decimal(n: nat) -> Seq<u8>
    decreases n,
{
    if n < 10 {
        seq![digit(n)]
    } else {
        decimal(n / 10).push(digit(n % 10))
    }
}

/// The last `k` decimal digits of `n`, with leading zeros.
pub open spec fn padded(n: nat, k: nat) -> Seq<u8>
    decreases k,
{
    if k == 0 {
        Seq::empty()
    } else {
        padded(n / 10, (k - 1) as nat).push(digit(n % 10))
    }
}

/// One exported line: the sample as seconds with nine decimal places.
pub open spec fn sample_line(x: u64) -> Seq<u8> {
    decimal((x / NANOS_PER_SEC) as nat) + seq![46u8] + padded((x % NANOS_PER_SEC) as nat, 9)
        + seq![10u8]
}

/// The exported text of a buffer: its lines, oldest sample first.
pub open spec fn lines_of(s: Seq<u64>) -> Seq<u8>
    decreases s.len(),
{
    if s.len() == 0 {
        Seq::empty()
    } else {
        lines_of(s.drop_last()) + sample_line(s.last())
    }
}

/// The number that a run of decimal digits stands for.
pub open spec fn digits_value(ds: Seq<u8>) -> int
    decreases ds.len(),
{
    if ds.len() == 0 {
        0
    } else {
        digits_value(ds.drop_last()) * 10 + (ds.last() - 48)
    }
}

/// The number that an exported line stands for, in nanoseconds: the digits
/// before the point are seconds, the nine after it are nanoseconds.
pub open spec fn line_value(line: Seq<u8>) -> int {
    let p = line.len() - 11;
    digits_value(line.subrange(0, p)) * NANOS_PER_SEC + digits_value(
        line.subrange(p + 1, line.len() - 1),
    )
}

proof fn lemma_decimal_value(n: nat)
    ensures
        decimal(n).len() >= 1,
        digits_value(decimal(n)) == n,
    decreases n,
{
    if n >= 10 {
        lemma_decimal_value(n / 10);
        assert(decimal(n).drop_last() =~= decimal(n / 10));
        assert(digit(n % 10) - 48 == n % 10);
        assert((n / 10) * 10 + n % 10 == n);
        assert(digits_value(decimal(n)) == digits_value(decimal(n / 10)) * 10 + (n % 10));
    } else {
        assert(decimal(n).drop_last() =~= Seq::<u8>::empty());
        assert(digit(n) - 48 == n);
        assert(digits_value(Seq::<u8>::empty()) == 0);
        assert(decimal(n).last() == digit(n));
    }
}

proof fn lemma_padded_value(n: nat, k: nat)
    ensures
        padded(n, k).len() == k,
        digits_value(padded(n, k)) == (n as int) % vstd::arithmetic::power::pow(10, k),
    decreases k,
{
    vstd::arithmetic::power::lemma_pow0(10);
    if k > 0 {
        lemma_padded_value(n / 10, (k - 1) as nat);
        assert(padded(n, k).drop_last() =~= padded(n / 10, (k - 1) as nat));
        assert(digit(n % 10) - 48 == n % 10);
        vstd::arithmetic::power::lemma_pow_positive(10, (k - 1) as nat);
        let m = vstd::arithmetic::power::pow(10, (k - 1) as nat);
        vstd::arithmetic::power::lemma_pow_adds(10, 1, (k - 1) as nat);
        vstd::arithmetic::power::lemma_pow1(10);
        assert(((n as int) / 10) % m * 10 + (n as int) % 10 == (n as int) % (10 * m)) by {
            vstd::arithmetic::div_mod::lemma_breakdown(n as int, 10, m);
        }
    }
}

/// Reading an exported line back gives the sample it was written from.
pub proof fn lemma_line_round_trip(x: u64)
    ensures
        line_value(sample_line(x)) == x,
{
    let a = decimal((x / NANOS_PER_SEC) as nat);
    let b = padded((x % NANOS_PER_SEC) as nat, 9);
    lemma_decimal_value((x / NANOS_PER_SEC) as nat);
    lemma_padded_value((x % NANOS_PER_SEC) as nat, 9);
    assert(vstd::arithmetic::power::pow(10, 9) == NANOS_PER_SEC) by {
        reveal_with_fuel(vstd::arithmetic::power::pow, 10);
    }
    let line = sample_line(x);
    let p = line.len() - 11;
    assert(p == a.len());
    assert(line.subrange(0, p) =~= a);
    assert(line.subrange(p + 1, line.len() - 1) =~= b);
    let xi = x as int;
    let ni = NANOS_PER_SEC as int;
    assert((xi % ni) % ni == xi % ni) by {
        vstd::arithmetic::div_mod::lemma_mod_twice(xi, ni);
    }
    assert(xi / ni * ni + xi % ni == xi);
}

/// Appends `n` in decimal to `out`.
fn push_decimal(out: &mut Vec<u8>, n: u64)
    ensures
        final(out)@ == old(out)@ + decimal(n as nat),
    decreases n,
{
    if n >= 10 {
        push_decimal(out, n / 10);
    }
    out.push(48 + (n % 10) as u8);
    assert(final(out)@ =~= old(out)@ + decimal(n as nat));
}

/// Appends the last `k` decimal digits of `n` to `out`, with leading zeros.
fn push_padded(out: &mut Vec<u8>, n: u64, k: u32)
    ensures
        final(out)@ == old(out)@ + padded(n as nat, k as nat),
    decreases k,
{
    if k > 0 {
        push_padded(out, n / 10, k - 1);
        out.push(48 + (n % 10) as u8);
    }
    assert(final(out)@ =~= old(out)@ + padded(n as nat, k as nat));
}

/// Appends the exported line of sample `x` to `out`.
fn push_line(out: &mut Vec<u8>, x: u64)
    ensures
        final(out)@ == old(out)@ + sample_line(x),
{
    push_decimal(out, x / NANOS_PER_SEC);
    out.push(46u8);
    push_padded(out, x % NANOS_PER_SEC, 9);
    out.push(10u8);
    assert(final(out)@ =~= old(out)@ + sample_line(x));
}

/// The exported text of a buffer.
pub fn lines_text(s: &Vec<u64>) -> (r: Vec<u8>)
    ensures
        r@ == lines_of(s@),
{
    let mut out: Vec<u8> = Vec::new();
    let mut i: usize = 0;
    while i < s.len()
        invariant
            0 <= i <= s@.len(),
            out@ == lines_of(s@.subrange(0, i as int)),
        decreases s@.len() - i,
    {
        proof {
            assert(s@.subrange(0, i + 1).drop_last() =~= s@.subrange(0, i as int));
        }
        push_line(&mut out, s[i]);
        i += 1;
    }
    proof {
        assert(s@.subrange(0, i as int) =~= s@);
    }
    out
}

/// Index of the last newline in `t` before index `end`, or -1 when there is none.
pub open spec fn last_newline_before(t: Seq<u8>, end: int) -> int
    decreases end,
{
    if end <= 0 {
        -1
    } else if t[end - 1] == 10u8 {
        end - 1
    } else {
        last_newline_before(t, end - 1)
    }
}

/// The samples that an exported text stands for, read line by line.
pub open spec fn parse_lines(t: Seq<u8>) -> Seq<int>
    decreases t.len(),
{
    if t.len() == 0 {
        Seq::empty()
    } else {
        let k = last_newline_before(t, t.len() - 1);
        if -1 <= k && k + 1 < t.len() {
            parse_lines(t.subrange(0, k + 1)).push(line_value(t.subrange(k + 1, t.len() as int)))
        } else {
            Seq::empty()
        }
    }
}

proof fn lemma_decimal_digits(n: nat)
    ensures
        forall|i: int| 0 <= i < decimal(n).len() ==> 48 <= #[trigger] decimal(n)[i] <= 57,
    decreases n,
{
    if n >= 10 {
        lemma_decimal_digits(n / 10);
        assert forall|i: int| 0 <= i < decimal(n).len() implies 48 <= #[trigger] decimal(n)[i]
            <= 57 by {
            if i < decimal(n).len() - 1 {
                assert(decimal(n)[i] == decimal(n / 10)[i]);
            }
        }
    }
}

proof fn lemma_padded_digits(n: nat, k: nat)
    ensures
        forall|i: int| 0 <= i < padded(n, k).len() ==> 48 <= #[trigger] padded(n, k)[i] <= 57,
    decreases k,
{
    if k > 0 {
        lemma_padded_digits(n / 10, (k - 1) as nat);
        assert forall|i: int| 0 <= i < padded(n, k).len() implies 48 <= #[trigger] padded(n, k)[i]
            <= 57 by {
            if i < padded(n, k).len() - 1 {
                assert(padded(n, k)[i] == padded(n / 10, (k - 1) as nat)[i]);
            }
        }
    }
}

proof fn lemma_line_shape(x: u64)
    ensures
        sample_line(x).len() >= 12,
        sample_line(x).last() == 10u8,
        forall|i: int| 0 <= i < sample_line(x).len() - 1 ==> #[trigger] sample_line(x)[i] != 10u8,
{
    let a = decimal((x / NANOS_PER_SEC) as nat);
    let b = padded((x % NANOS_PER_SEC) as nat, 9);
    lemma_decimal_value((x / NANOS_PER_SEC) as nat);
    lemma_padded_value((x % NANOS_PER_SEC) as nat, 9);
    lemma_decimal_digits((x / NANOS_PER_SEC) as nat);
    lemma_padded_digits((x % NANOS_PER_SEC) as nat, 9);
    let l = sample_line(x);
    assert forall|i: int| 0 <= i < l.len() - 1 implies #[trigger] l[i] != 10u8 by {
        if i < a.len() {
            assert(l[i] == a[i]);
        } else if i > a.len() {
            assert(l[i] == b[i - a.len() - 1]);
        }
    }
}

proof fn lemma_lines_end(s: Seq<u64>)
    ensures
        s.len() > 0 ==> lines_of(s).len() > 0 && lines_of(s).last() == 10u8,
        s.len() == 0 ==> lines_of(s).len() == 0,
{
    if s.len() > 0 {
        lemma_line_shape(s.last());
    }
}

proof fn lemma_skip_line(t: Seq<u8>, p: int, end: int)
    requires
        0 <= p <= end < t.len(),
        forall|i: int| p <= i < end ==> #[trigger] t[i] != 10u8,
    ensures
        last_newline_before(t, end) == last_newline_before(t, p),
    decreases end - p,
{
    if end > p {
        lemma_skip_line(t, p, end - 1);
    }
}

/// Reading an exported text back line by line gives the samples it was
/// written from, in order.
pub proof fn lemma_export_round_trip(s: Seq<u64>)
    ensures
        parse_lines(lines_of(s)) == s.map_values(|x: u64| x as int),
    decreases s.len(),
{
    if s.len() == 0 {
        assert(parse_lines(lines_of(s)) =~= s.map_values(|x: u64| x as int));
    } else {
        let s0 = s.drop_last();
        let x = s.last();
        lemma_export_round_trip(s0);
        let a = lines_of(s0);
        let l = sample_line(x);
        let t = lines_of(s);
        assert(t == a + l);
        lemma_line_shape(x);
        lemma_lines_end(s0);
        let p = a.len() as int;
        assert forall|i: int| p <= i < t.len() - 1 implies #[trigger] t[i] != 10u8 by {
            assert(t[i] == l[i - p]);
        }
        lemma_skip_line(t, p, t.len() - 1);
        if p > 0 {
            assert(t[p - 1] == a.last());
        }
        let k = last_newline_before(t, t.len() - 1);
        assert(k == p - 1);
        assert(t.subrange(0, k + 1) =~= a);
        assert(t.subrange(k + 1, t.len() as int) =~= l);
        lemma_line_round_trip(x);
        assert(parse_lines(t) =~= s.map_values(|x: u64| x as int));
    }
}

} // verus!
