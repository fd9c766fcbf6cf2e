//! ASCII renderings of decimal digits and of natural numbers.

use vstd::prelude::*;

verus! {

/// ASCII code of the decimal digit `d` (`0 <= d < 10`).
pub open spec fn digit_char(d: u8) -> u8 {
    (48 + d) as u8
}

/// Whether `c` is the ASCII code of a decimal digit.
pub open spec fn is_digit_char(c: u8) -> bool {
    48 <= c <= 57
}

/// ASCII rendering of a sequence of digit values.
pub open spec fn digit_chars(ds: Seq<u8>) -> Seq<u8> {
    ds.map_values(|d: u8| digit_char(d))
}

/// `m` ASCII zeros.
pub open spec fn zeros(m: nat) -> Seq<u8> {
    Seq::new(m, |i: int| 48u8)
}

/// Shortest decimal rendering of a natural number (no leading zeros).
pub open spec fn nat_text(n: nat) -> Seq<u8>
    decreases n,
{
    if n < 10 {
        seq![digit_char(n as u8)]
    } else {
        nat_text(n / 10).push(digit_char((n % 10) as u8))
    }
}

/// Value of a sequence of ASCII digits read in base ten.
pub open spec fn text_value(s: Seq<u8>) -> nat
    decreases s.len(),
{
    if s.len() == 0 {
        0
    } else {
        (text_value(s.drop_last()) * 10 + (s.last() - 48)) as nat
    }
}

/// All entries of `ds` are digit values.
pub open spec fn all_digits(ds: Seq<u8>) -> bool {
    forall|i: int| 0 <= i < ds.len() ==> #[trigger] ds[i] < 10
}

/// Appends the digit values `ds[from..to]` to `out` as ASCII.
pub fn push_digit_chars(out: &mut Vec<u8>, ds: &[u8], from: usize, to: usize)
    requires
        from <= to <= ds@.len(),
        all_digits(ds@),
    ensures
        final(out)@ == old(out)@ + digit_chars(ds@.subrange(from as int, to as int)),
{
    let ghost start = old(out)@;
    let mut i = from;
    while i < to
        invariant
            from <= i <= to <= ds@.len(),
            all_digits(ds@),
            out@ == start + digit_chars(ds@.subrange(from as int, i as int)),
        decreases to - i,
    {
        let d = ds[i];
        assert(ds@[i as int] < 10);
        out.push(48u8 + d);
        proof {
            assert(ds@.subrange(from as int, i + 1) =~= ds@.subrange(from as int, i as int).push(d));
            assert(digit_chars(ds@.subrange(from as int, i + 1)) =~= digit_chars(
                ds@.subrange(from as int, i as int),
            ).push(digit_char(d)));
        }
        i = i + 1;
    }
}

/// Appends `m` ASCII zeros to `out`.
pub fn push_zeros(out: &mut Vec<u8>, m: usize)
    ensures
        final(out)@ == old(out)@ + zeros(m as nat),
{
    let ghost start = old(out)@;
    let mut i: usize = 0;
    while i < m
        invariant
            i <= m,
            out@ == start + zeros(i as nat),
        decreases m - i,
    {
        out.push(48u8);
        proof {
            assert(zeros((i + 1) as nat) =~= zeros(i as nat).push(48u8));
        }
        i = i + 1;
    }
}

/// Appends the shortest decimal rendering of `v` to `out`.
pub fn push_nat(out: &mut Vec<u8>, v: u64)
    ensures
        final(out)@ == old(out)@ + nat_text(v as nat),
    decreases v,
{
    if v >= 10 {
        push_nat(out, v / 10);
    }
    let d = (v % 10) as u8;
    out.push(48u8 + d);
    proof {
        if v >= 10 {
            assert(nat_text(v as nat) == nat_text((v / 10) as nat).push(digit_char(d)));
        } else {
            assert(nat_text(v as nat) =~= seq![digit_char(d)]);
        }
    }
}


/// `10^j`.
pub open spec fn pow10(j: nat) -> nat
    decreases j,
{
    if j == 0 { 1 } else { 10 * pow10((j - 1) as nat) }
}

/// A canonical decimal numeral: nonempty, all digits, and no leading zero
/// unless it is the single digit `0`.
pub open spec fn canonical_numeral(s: Seq<u8>) -> bool {
    &&& s.len() >= 1
    &&& forall|i: int| 0 <= i < s.len() ==> is_digit_char(#[trigger] s[i])
    &&& s.len() > 1 ==> s[0] != 48
}

/// `nat_text(n)` is a canonical numeral whose value is `n`.
pub proof fn lemma_nat_text(n: nat)
    ensures
        canonical_numeral(nat_text(n)),
        text_value(nat_text(n)) == n,
        nat_text(n)[0] == 48 <==> n == 0,
    decreases n,
{
    if n >= 10 {
        lemma_nat_text(n / 10);
        let s = nat_text(n / 10);
        let t = nat_text(n);
        assert(t == s.push(digit_char((n % 10) as u8)));
        assert(t.drop_last() =~= s);
        assert forall|i: int| 0 <= i < t.len() implies is_digit_char(#[trigger] t[i]) by {
            if i < s.len() {
                assert(t[i] == s[i]);
            }
        }
        assert(t[0] == s[0]);
        assert(t.last() == digit_char((n % 10) as u8));
        assert(text_value(t) == text_value(s) * 10 + (n % 10));
    } else {
        let t = nat_text(n);
        assert(t.drop_last() =~= Seq::<u8>::empty());
        assert(t.len() == 1);
        assert(t.last() == 48 + n);
        assert(text_value(t.drop_last()) == 0);
        assert(text_value(t) == n);
    }
}

/// Renderings of numbers below `10^j` have at most `j` digits.
pub proof fn lemma_nat_text_len(n: nat, j: nat)
    requires
        j >= 1,
        n < pow10(j),
    ensures
        nat_text(n).len() <= j,
    decreases j,
{
    if n >= 10 {
        assert(j >= 2) by {
            if j == 1 {
                reveal_with_fuel(pow10, 2);
            }
        }
        lemma_nat_text_len(n / 10, (j - 1) as nat);
    }
}


/// `10^j` grows with `j`.
pub proof fn lemma_pow10_monotone(a: nat, b: nat)
    requires
        a <= b,
    ensures
        pow10(a) <= pow10(b),
    decreases b,
{
    if a < b {
        lemma_pow10_monotone(a, (b - 1) as nat);
    }
}


/// `t` with every `.` removed.
pub open spec fn without_point(t: Seq<u8>) -> Seq<u8>
    decreases t.len(),
{
    if t.len() == 0 {
        Seq::empty()
    } else if t.last() == 46 {
        without_point(t.drop_last())
    } else {
        without_point(t.drop_last()).push(t.last())
    }
}

/// Number of characters after the decimal point of `t` (0 without a point).
pub open spec fn digits_after_point(t: Seq<u8>) -> nat
    decreases t.len(),
{
    if t.len() == 0 {
        0
    } else if t.last() == 46 {
        0
    } else if t.drop_last().contains(46) {
        digits_after_point(t.drop_last()) + 1
    } else {
        0
    }
}

/// Removing points distributes over concatenation.
pub proof fn lemma_without_point_concat(a: Seq<u8>, b: Seq<u8>)
    ensures
        without_point(a + b) == without_point(a) + without_point(b),
    decreases b.len(),
{
    if b.len() == 0 {
        assert(a + b =~= a);
        assert(without_point(b) =~= Seq::<u8>::empty());
        assert(without_point(a) + without_point(b) =~= without_point(a));
    } else {
        let bp = b.drop_last();
        lemma_without_point_concat(a, bp);
        assert((a + b).drop_last() =~= a + bp);
        assert((a + b).last() == b.last());
        if b.last() == 46 {
        } else {
            assert(without_point(a) + without_point(bp).push(b.last()) =~= (without_point(a)
                + without_point(bp)).push(b.last()));
        }
    }
}

/// A text without points is unchanged by removing points.
pub proof fn lemma_without_point_id(s: Seq<u8>)
    requires
        !s.contains(46),
    ensures
        without_point(s) == s,
    decreases s.len(),
{
    if s.len() > 0 {
        let p = s.drop_last();
        assert(!p.contains(46)) by {
            if p.contains(46) {
                let i = choose|i: int| 0 <= i < p.len() && p[i] == 46;
                assert(s[i] == 46);
            }
        }
        lemma_without_point_id(p);
        assert(s[s.len() - 1] != 46);
        assert(p.push(s.last()) =~= s);
    }
}

/// With one point followed by a point-free tail, the digits after the point
/// are the tail.
pub proof fn lemma_digits_after_point(a: Seq<u8>, b: Seq<u8>)
    requires
        !b.contains(46),
    ensures
        digits_after_point(a + seq![46u8] + b) == b.len(),
    decreases b.len(),
{
    let t = a + seq![46u8] + b;
    if b.len() > 0 {
        let bp = b.drop_last();
        assert(!bp.contains(46)) by {
            if bp.contains(46) {
                let i = choose|i: int| 0 <= i < bp.len() && bp[i] == 46;
                assert(b[i] == 46);
            }
        }
        lemma_digits_after_point(a, bp);
        assert(t.drop_last() =~= a + seq![46u8] + bp);
        assert(t.last() == b[b.len() - 1]);
        assert(t.drop_last()[a.len() as int] == 46);
    }
}

/// A text without points has no digits after a point.
pub proof fn lemma_no_digits_after_point(t: Seq<u8>)
    requires
        !t.contains(46),
    ensures
        digits_after_point(t) == 0,
{
    if t.len() > 0 {
        assert(t[t.len() - 1] != 46);
        if t.drop_last().contains(46) {
            let i = choose|i: int| 0 <= i < t.drop_last().len() && t.drop_last()[i] == 46;
            assert(t[i] == 46);
        }
    }
}

/// Value of a concatenation of numerals.
pub proof fn lemma_text_value_concat(a: Seq<u8>, b: Seq<u8>)
    requires
        forall|i: int| 0 <= i < b.len() ==> is_digit_char(#[trigger] b[i]),
    ensures
        text_value(a + b) == text_value(a) * pow10(b.len()) + text_value(b),
    decreases b.len(),
{
    if b.len() == 0 {
        assert(a + b =~= a);
        assert(text_value(b) == 0);
        assert(pow10(0) == 1);
        assert(text_value(a) * 1 == text_value(a));
    } else {
        let bp = b.drop_last();
        assert forall|i: int| 0 <= i < bp.len() implies is_digit_char(#[trigger] bp[i]) by {
            assert(bp[i] == b[i]);
        }
        lemma_text_value_concat(a, bp);
        assert(is_digit_char(b[b.len() - 1]));
        assert((a + b).drop_last() =~= a + bp);
        assert((a + b).last() == b.last());
        let va = text_value(a);
        let p = pow10(bp.len());
        let vb = text_value(bp);
        let c = b.last() - 48;
        assert(text_value(a + b) == text_value(a + bp) * 10 + c);
        assert(text_value(b) == vb * 10 + c);
        assert(pow10(b.len()) == 10 * p);
        assert((va * p + vb) * 10 + c == va * (10 * p) + (vb * 10 + c)) by (nonlinear_arith);
        assert(text_value(a + b) == va * pow10(b.len()) + text_value(b));
    }
}

/// A run of zeros has value zero.
pub proof fn lemma_text_value_zeros(m: nat)
    ensures
        text_value(zeros(m)) == 0,
    decreases m,
{
    if m > 0 {
        lemma_text_value_zeros((m - 1) as nat);
        assert(zeros(m).drop_last() =~= zeros((m - 1) as nat));
    }
}


/// Decimal digit values of `n`, most significant first (`[0]` for zero).
pub open spec fn digit_values(n: nat) -> Seq<u8>
    decreases n,
{
    if n < 10 {
        seq![n as u8]
    } else {
        digit_values(n / 10).push((n % 10) as u8)
    }
}

/// `n` with its trailing decimal zeros removed (zero stays zero).
pub open spec fn strip_zeros(n: nat) -> nat
    decreases n,
{
    if n > 0 && n % 10 == 0 {
        strip_zeros(n / 10)
    } else {
        n
    }
}

/// Number of trailing decimal zeros of `n` (0 for zero).
pub open spec fn trailing_zeros(n: nat) -> nat
    decreases n,
{
    if n > 0 && n % 10 == 0 {
        trailing_zeros(n / 10) + 1
    } else {
        0
    }
}

/// The digit values of `n` render as `nat_text(n)`; they are digits, the first
/// is nonzero for `n > 0`, and the last is `n % 10`.
pub proof fn lemma_digit_values(n: nat)
    ensures
        digit_chars(digit_values(n)) == nat_text(n),
        digit_values(n).len() >= 1,
        all_digits(digit_values(n)),
        n > 0 ==> digit_values(n)[0] != 0,
        digit_values(n).last() == n % 10,
    decreases n,
{
    let ds = digit_values(n);
    if n < 10 {
        assert(digit_chars(ds) =~= nat_text(n));
    } else {
        lemma_digit_values(n / 10);
        let p = digit_values(n / 10);
        assert(digit_chars(ds) =~= digit_chars(p).push(digit_char((n % 10) as u8)));
        assert forall|i: int| 0 <= i < ds.len() implies #[trigger] ds[i] < 10 by {
            if i < p.len() {
                assert(ds[i] == p[i]);
            }
        }
        assert(ds[0] == p[0]);
    }
}

/// Stripping trailing zeros: the result is not a multiple of ten (unless
/// zero) and times `10^trailing_zeros` gives back `n`.
pub proof fn lemma_strip_zeros(n: nat)
    ensures
        strip_zeros(n) * pow10(trailing_zeros(n)) == n,
        n > 0 ==> strip_zeros(n) > 0 && strip_zeros(n) % 10 != 0,
        n == 0 ==> strip_zeros(n) == 0,
    decreases n,
{
    if n > 0 && n % 10 == 0 {
        lemma_strip_zeros(n / 10);
        let s = strip_zeros(n / 10);
        let t = trailing_zeros(n / 10);
        assert(pow10(t + 1) == 10 * pow10(t));
        assert(s * (10 * pow10(t)) == 10 * (s * pow10(t))) by (nonlinear_arith);
        assert(n == 10 * (n / 10));
        assert(strip_zeros(n) == s);
        assert(trailing_zeros(n) == t + 1);
        assert(strip_zeros(n) * pow10(trailing_zeros(n)) == s * (10 * pow10(t)));
    } else {
        assert(pow10(0) == 1);
        assert(n * 1 == n);
    }
}

/// Appends the digit values of `n` to `out`.
pub fn push_digit_values(out: &mut Vec<u8>, n: u64)
    ensures
        final(out)@ == old(out)@ + digit_values(n as nat),
    decreases n,
{
    if n >= 10 {
        push_digit_values(out, n / 10);
    }
    let d = (n % 10) as u8;
    out.push(d);
    proof {
        if n >= 10 {
            assert(digit_values(n as nat) == digit_values((n / 10) as nat).push(d));
        } else {
            assert(digit_values(n as nat) =~= seq![d]);
        }
    }
}

/// Removes the trailing decimal zeros of a nonzero `n`; returns the stripped
/// value and the number of zeros removed.
pub fn strip_trailing_zeros(n: u64) -> (r: (u64, u32))
    requires
        n > 0,
    ensures
        r.0 == strip_zeros(n as nat),
        r.1 == trailing_zeros(n as nat),
{
    let mut m = n;
    let mut z: u32 = 0;
    assert(pow10(0) == 1);
    assert(m * pow10(0) == n);
    while m % 10 == 0
        invariant
            m > 0,
            strip_zeros(m as nat) == strip_zeros(n as nat),
            trailing_zeros(n as nat) == trailing_zeros(m as nat) + z,
            z <= 20,
            m * pow10(z as nat) == n,
        decreases m,
    {
        proof {
            assert(pow10((z + 1) as nat) == 10 * pow10(z as nat));
            assert((m / 10) * (10 * pow10(z as nat)) == m * pow10(z as nat)) by (nonlinear_arith)
                requires
                    m % 10 == 0,
            ;
            if z + 1 > 20 {
                assert(pow10(20) == 100000000000000000000) by {
                    reveal_with_fuel(pow10, 21);
                }
                lemma_pow10_monotone(20, (z + 1) as nat);
                assert((m / 10) * pow10((z + 1) as nat) >= pow10((z + 1) as nat)) by (
                nonlinear_arith)
                    requires
                        m / 10 >= 1,
                ;
            }
        }
        m = m / 10;
        z = z + 1;
    }
    (m, z)
}


/// `10^(a + b) == 10^a * 10^b`.
pub proof fn lemma_pow10_add(a: nat, b: nat)
    ensures
        pow10(a + b) == pow10(a) * pow10(b),
    decreases b,
{
    if b > 0 {
        lemma_pow10_add(a, (b - 1) as nat);
        let p = pow10(a);
        let q = pow10((b - 1) as nat);
        assert(pow10(a + b) == 10 * pow10((a + b - 1) as nat));
        assert(10 * (p * q) == p * (10 * q)) by (nonlinear_arith);
    } else {
        assert(pow10(a) * 1 == pow10(a));
    }
}

/// Stripping trailing zeros removes exactly that many digits.
pub proof fn lemma_digit_values_strip(n: nat)
    ensures
        digit_values(n).len() == digit_values(strip_zeros(n)).len() + trailing_zeros(n),
    decreases n,
{
    if n > 0 && n % 10 == 0 {
        lemma_digit_values_strip(n / 10);
        assert(n >= 10);
    }
}

} // verus!

verus! {

/// `10^j` is positive.
pub proof fn lemma_pow10_positive(j: nat)
    ensures
        pow10(j) > 0,
    decreases j,
{
    if j > 0 {
        lemma_pow10_positive((j - 1) as nat);
    }
}

} // verus!
