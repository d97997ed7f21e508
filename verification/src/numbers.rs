//! Decimal rendering and parsing of unsigned integers, byte by byte.
use vstd::prelude::*;

verus! {

/// The ASCII decimal digits of `n`, most significant first, without leading zeros.
pub open spec fn decimal(n: nat) -> Seq<u8>
    decreases n,
{
    if n < 10 {
        seq![(48 + n) as u8]
    } else {
        decimal(n / 10).push((48 + n % 10) as u8)
    }
}

/// `s` preceded by as many `'0'` bytes as it takes to reach `width` bytes.
pub open spec fn zero_pad(s: Seq<u8>, width: nat) -> Seq<u8> {
    if s.len() >= width {
        s
    } else {
        Seq::new((width - s.len()) as nat, |i: int| 48u8) + s
    }
}

pub open spec fn is_digit(b: u8) -> bool {
    48 <= b <= 57
}

pub open spec fn all_digits(s: Seq<u8>) -> bool {
    forall|i: int| 0 <= i < s.len() ==> is_digit(#[trigger] s[i])
}

/// The value of a string of decimal digits.
pub open spec fn digits_value(s: Seq<u8>) -> nat
    decreases s.len(),
{
    if s.len() == 0 {
        0
    } else {
        digits_value(s.drop_last()) * 10 + (s.last() - 48) as nat
    }
}

/// What `str::parse` gives for an unsigned integer type whose largest value is `max`:
/// an optional `'+'`, then one or more decimal digits, with no overflow.
pub open spec fn parse_unsigned(s: Seq<u8>, max: nat) -> Option<nat> {
    let d = if s.len() > 0 && s[0] == 43u8 {
        s.drop_first()
    } else {
        s
    };
    if d.len() > 0 && all_digits(d) && digits_value(d) <= max {
        Some(digits_value(d))
    } else {
        None
    }
}

/// Every byte of `decimal(n)` is a digit, and it has at least one.
pub proof fn lemma_decimal_digits(n: nat)
    ensures
        decimal(n).len() >= 1,
        all_digits(decimal(n)),
    decreases n,
{
    if n >= 10 {
        lemma_decimal_digits(n / 10);
    }
}

/// Reading back the digits of `n` gives `n`.
pub proof fn lemma_decimal_value(n: nat)
    ensures
        digits_value(decimal(n)) == n,
    decreases n,
{
    if n >= 10 {
        lemma_decimal_value(n / 10);
        let s = decimal(n);
        assert(s.drop_last() =~= decimal(n / 10));
        assert(s.last() == (48 + n % 10) as u8);
        assert((s.last() - 48) as nat == n % 10);
        assert(digits_value(s) == digits_value(decimal(n / 10)) * 10 + n % 10);
        assert(n == (n / 10) * 10 + n % 10);
    } else {
        let s = decimal(n);
        assert(s.drop_last() =~= Seq::<u8>::empty());
        assert(digits_value(s.drop_last()) == 0);
        assert(s.last() == (48 + n) as u8);
        assert(digits_value(s) == digits_value(s.drop_last()) * 10 + (s.last() - 48) as nat);
    }
}

/// Leading zeros do not change the value.
pub proof fn lemma_zero_pad_value(s: Seq<u8>, width: nat)
    requires
        all_digits(s),
    ensures
        digits_value(zero_pad(s, width)) == digits_value(s),
        all_digits(zero_pad(s, width)),
        zero_pad(s, width).len() >= s.len(),
{
    if s.len() < width {
        let z = Seq::new((width - s.len()) as nat, |i: int| 48u8);
        lemma_zeros_then_value(z, s);
    }
}

proof fn lemma_zeros_then_value(z: Seq<u8>, s: Seq<u8>)
    requires
        forall|i: int| 0 <= i < z.len() ==> z[i] == 48u8,
        all_digits(s),
    ensures
        digits_value(z + s) == digits_value(s),
        all_digits(z + s),
    decreases s.len(),
{
    if s.len() == 0 {
        assert(z + s =~= z);
        lemma_zeros_value(z);
    } else {
        assert((z + s).drop_last() =~= z + s.drop_last());
        lemma_zeros_then_value(z, s.drop_last());
    }
    assert forall|i: int| 0 <= i < (z + s).len() implies is_digit(#[trigger] (z + s)[i]) by {
        if i < z.len() {
        } else {
            assert((z + s)[i] == s[i - z.len()]);
        }
    }
}

proof fn lemma_zeros_value(z: Seq<u8>)
    requires
        forall|i: int| 0 <= i < z.len() ==> z[i] == 48u8,
    ensures
        digits_value(z) == 0,
    decreases z.len(),
{
    if z.len() > 0 {
        lemma_zeros_value(z.drop_last());
    }
}

/// A longer run of digits is worth at least as much as its prefix.
pub proof fn lemma_digits_prefix_le(s: Seq<u8>, k: int)
    requires
        0 <= k <= s.len(),
        all_digits(s),
    ensures
        digits_value(s.subrange(0, k)) <= digits_value(s),
    decreases s.len() - k,
{
    if k < s.len() {
        lemma_digits_prefix_le(s, k + 1);
        assert(s.subrange(0, k + 1).drop_last() =~= s.subrange(0, k));
        assert(is_digit(s[k]));
    } else {
        assert(s.subrange(0, k) =~= s);
    }
}

/// The number of decimal digits of `n`.
pub fn decimal_len(n: u128) -> (r: usize)
    ensures
        r as nat == decimal(n as nat).len(),
        1 <= r <= 39,
    decreases n,
{
    if n < 10 {
        1
    } else {
        let k = decimal_len(n / 10);
        proof {
            assert(n / 10 < 0x1999_9999_9999_9999_9999_9999_9999_999a);
        }
        if k >= 39 {
            proof {
                lemma_decimal_len_bound(n as nat);
            }
        }
        k + 1
    }
}

proof fn lemma_decimal_len_bound(n: nat)
    requires
        n <= u128::MAX,
    ensures
        decimal(n).len() <= 39,
{
    reveal_with_fuel(pow10, 40);
    assert(pow10(39) > u128::MAX);
    lemma_decimal_len_pow(n, 39);
}

pub proof fn lemma_decimal_len_pow(n: nat, k: nat)
    requires
        n < pow10(k),
        k >= 1,
    ensures
        decimal(n).len() <= k,
    decreases k,
{
    if n >= 10 {
        assert(pow10(k) == 10 * pow10((k - 1) as nat));
        assert(n / 10 < pow10((k - 1) as nat)) by (nonlinear_arith)
            requires
                n < 10 * pow10((k - 1) as nat),
        ;
        if k == 1 {
            assert(pow10(0) == 1);
        } else {
            lemma_decimal_len_pow(n / 10, (k - 1) as nat);
        }
    }
}

pub open spec fn pow10(k: nat) -> nat
    decreases k,
{
    if k == 0 {
        1
    } else {
        10 * pow10((k - 1) as nat)
    }
}

/// Appends the decimal digits of `n`.
pub fn push_decimal(out: &mut Vec<u8>, n: u128)
    ensures
        final(out)@ == old(out)@ + decimal(n as nat),
    decreases n,
{
    if n >= 10 {
        push_decimal(out, n / 10);
    }
    let d: u8 = (n % 10) as u8;
    out.push(48u8 + d);
    proof {
        if n >= 10 {
            assert(old(out)@ + decimal(n as nat) =~= old(out)@ + decimal((n / 10) as nat) + seq![
                (48 + n % 10) as u8,
            ]);
        } else {
            assert(old(out)@ + decimal(n as nat) =~= old(out)@.push((48 + n) as u8));
        }
    }
}

/// Appends the decimal digits of `n`, zero-padded on the left to `width` bytes.
pub fn push_decimal_padded(out: &mut Vec<u8>, n: u128, width: usize)
    ensures
        final(out)@ == old(out)@ + zero_pad(decimal(n as nat), width as nat),
{
    let len = decimal_len(n);
    let ghost start = out@;
    if len < width {
        let mut k: usize = 0;
        while k < width - len
            invariant
                len < width,
                0 <= k <= width - len,
                out@ == start + Seq::new(k as nat, |i: int| 48u8),
            decreases width - len - k,
        {
            out.push(48u8);
            proof {
                assert(start + Seq::new((k + 1) as nat, |i: int| 48u8) =~= (start + Seq::new(
                    k as nat,
                    |i: int| 48u8,
                )).push(48u8));
            }
            k = k + 1;
        }
    }
    let ghost mid = out@;
    push_decimal(out, n);
    proof {
        if len < width {
            assert(start + zero_pad(decimal(n as nat), width as nat) =~= mid + decimal(n as nat));
        } else {
            assert(start + zero_pad(decimal(n as nat), width as nat) =~= start + decimal(n as nat));
        }
    }
}

/// Parses `s[a..b]` the way `str::parse` parses an unsigned integer no larger than `max`.
pub fn parse_unsigned_range(s: &[u8], a: usize, b: usize, max: u64) -> (r: Option<u64>)
    requires
        a <= b <= s@.len(),
        max >= 9,
    ensures
        match r {
            Some(v) => parse_unsigned(s@.subrange(a as int, b as int), max as nat) == Some(v as nat),
            None => parse_unsigned(s@.subrange(a as int, b as int), max as nat) is None,
        },
{
    let ghost t = s@.subrange(a as int, b as int);
    let mut i = a;
    if a < b && s[a] == 43u8 {
        i = a + 1;
    }
    let ghost d = s@.subrange(i as int, b as int);
    proof {
        assert(t.len() > 0 ==> t[0] == s@[a as int]);
        if a < b && s@[a as int] == 43u8 {
            assert(t.drop_first() =~= d);
        } else {
            assert(t =~= d);
        }
    }
    if i == b {
        return None;
    }
    let start = i;
    let mut v: u64 = 0;
    while i < b
        invariant
            a <= start <= i <= b <= s@.len(),
            start < b,
            max >= 9,
            d == s@.subrange(start as int, b as int),
            d == (if a < b && s@[a as int] == 43u8 {
                s@.subrange(a as int, b as int).drop_first()
            } else {
                s@.subrange(a as int, b as int)
            }),
            s@.subrange(a as int, b as int).len() > 0 ==> s@.subrange(a as int, b as int)[0]
                == s@[a as int],
            all_digits(s@.subrange(start as int, i as int)),
            v as nat == digits_value(s@.subrange(start as int, i as int)),
            v <= max,
        decreases b - i,
    {
        let c = s[i];
        if c < 48u8 || c > 57u8 {
            proof {
                assert(d[i - start] == c);
            }
            return None;
        }
        let dv: u64 = (c - 48u8) as u64;
        let ghost pre = s@.subrange(start as int, i as int);
        let ghost next = s@.subrange(start as int, i + 1);
        proof {
            assert(next.drop_last() =~= pre);
            assert(next.last() == c);
        }
        if v > (max - dv) / 10 {
            proof {
                assert(v * 10 + dv > max) by (nonlinear_arith)
                    requires
                        v > (max - dv) / 10,
                        dv <= 9,
                        max >= 9,
                ;
                assert(all_digits(next)) by {
                    assert forall|j: int| 0 <= j < next.len() implies is_digit(#[trigger] next[j]) by {
                        if j < pre.len() {
                            assert(next[j] == pre[j]);
                        }
                    }
                }
                assert(digits_value(next) == v * 10 + dv);
                if all_digits(d) {
                    assert(next =~= d.subrange(0, i + 1 - start));
                    lemma_digits_prefix_le(d, i + 1 - start);
                }
            }
            return None;
        }
        proof {
            assert(v * 10 + dv <= max) by (nonlinear_arith)
                requires
                    v <= (max - dv) / 10,
                    dv <= 9,
                    max >= 9,
            ;
            assert forall|j: int| 0 <= j < next.len() implies is_digit(#[trigger] next[j]) by {
                if j < pre.len() {
                    assert(next[j] == pre[j]);
                }
            }
        }
        v = v * 10 + dv;
        i = i + 1;
    }
    proof {
        assert(d =~= s@.subrange(start as int, i as int));
    }
    Some(v)
}

} // verus!
