//! Decimal numerals as bencode writes them: the digits of a length or of an
//! integer, read and written byte by byte.
use vstd::prelude::*;

verus! {

/// An ASCII decimal digit.
pub open spec fn is_digit(b: u8) -> bool {
    48 <= b <= 57
}

pub open spec fn all_digits(s: Seq<u8>) -> bool {
    forall|i: int| 0 <= i < s.len() ==> is_digit(#[trigger] s[i])
}

/// The number that a run of decimal digits denotes (most significant first).
pub open spec fn digits_value(s: Seq<u8>) -> nat
    decreases s.len(),
{
    if s.len() == 0 {
        0
    } else {
        digits_value(s.drop_last()) * 10 + (s.last() - 48) as nat
    }
}

/// The shortest decimal numeral of `n`, as `to_string` writes it.
pub open spec fn decimal_digits(n: nat) -> Seq<u8>
    decreases n,
{
    if n < 10 {
        seq![(48 + n) as u8]
    } else {
        decimal_digits(n / 10).push((48 + n % 10) as u8)
    }
}

/// The decimal numeral of a signed integer, with a leading `-` when negative.
pub open spec fn signed_decimal(i: int) -> Seq<u8> {
    if i < 0 {
        seq![45u8] + decimal_digits((-i) as nat)
    } else {
        decimal_digits(i as nat)
    }
}

/// The digits after an optional leading `+`.
pub open spec fn unsigned_body(s: Seq<u8>) -> Seq<u8> {
    if s.len() > 0 && s[0] == 43 {
        s.drop_first()
    } else {
        s
    }
}

/// What `usize::from_str` accepts: an optional `+`, then one or more digits,
/// denoting a value that fits in a `usize`.
pub open spec fn spec_parse_usize(s: Seq<u8>) -> Option<nat> {
    let d = unsigned_body(s);
    if d.len() > 0 && all_digits(d) && digits_value(d) <= usize::MAX {
        Some(digits_value(d))
    } else {
        None
    }
}

/// What `i64::from_str` accepts: an optional sign, then one or more digits,
/// denoting a value in the range of `i64`.
pub open spec fn spec_parse_i64(s: Seq<u8>) -> Option<i64> {
    if s.len() > 0 && s[0] == 45 {
        let d = s.drop_first();
        if d.len() > 0 && all_digits(d) && digits_value(d) <= 0x8000_0000_0000_0000 {
            Some((-digits_value(d)) as i64)
        } else {
            None
        }
    } else {
        let d = unsigned_body(s);
        if d.len() > 0 && all_digits(d) && digits_value(d) <= i64::MAX {
            Some(digits_value(d) as i64)
        } else {
            None
        }
    }
}

proof fn lemma_digits_value_step(s: Seq<u8>, i: int)
    requires
        0 <= i < s.len(),
    ensures
        digits_value(s.take(i + 1)) == digits_value(s.take(i)) * 10 + (s[i] - 48) as nat,
{
    assert(s.take(i + 1).drop_last() =~= s.take(i));
}

/// A prefix of a run of digits never denotes more than the whole run.
proof fn lemma_digits_value_prefix(s: Seq<u8>, k: int)
    requires
        all_digits(s),
        0 <= k <= s.len(),
    ensures
        digits_value(s.take(k)) <= digits_value(s),
    decreases s.len() - k,
{
    if k < s.len() {
        lemma_digits_value_prefix(s, k + 1);
        lemma_digits_value_step(s, k);
        assert(is_digit(s[k]));
    } else {
        assert(s.take(k) =~= s);
    }
}

/// The numeral written for `n` is a run of digits that reads back as `n`,
/// and it starts with `0` only when it is the numeral of zero.
pub proof fn lemma_decimal_digits(n: nat)
    ensures
        all_digits(decimal_digits(n)),
        digits_value(decimal_digits(n)) == n,
        1 <= decimal_digits(n).len(),
        decimal_digits(n).len() <= n + 1,
        decimal_digits(n)[0] == 48 ==> n == 0,
        n == 0 ==> decimal_digits(n) == seq![48u8],
    decreases n,
{
    if n >= 10 {
        lemma_decimal_digits(n / 10);
        let d = decimal_digits(n);
        assert(d.drop_last() =~= decimal_digits(n / 10));
        assert((n / 10) * 10 + n % 10 == n) by (nonlinear_arith);
        assert(d.last() == (48 + n % 10) as u8);
        assert(forall|i: int| 0 <= i < d.len() - 1 ==> d[i] == decimal_digits(n / 10)[i]);
    } else {
        let d = decimal_digits(n);
        assert(d.drop_last() =~= Seq::<u8>::empty());
        assert(digits_value(Seq::<u8>::empty()) == 0);
        assert(d.last() == (48 + n) as u8);
    }
}

/// A numeral as `to_string` writes it: no sign, and no leading zero unless
/// it is `0` itself.
pub open spec fn canonical_digits(d: Seq<u8>) -> bool {
    &&& d.len() > 0
    &&& all_digits(d)
    &&& !(d.len() > 1 && d[0] == 48)
}

pub proof fn lemma_digits_value_positive(d: Seq<u8>)
    requires
        d.len() > 0,
        all_digits(d),
        d[0] != 48,
    ensures
        digits_value(d) >= 1,
    decreases d.len(),
{
    if d.len() > 1 {
        assert(d.drop_last()[0] == d[0]);
        assert(all_digits(d.drop_last()));
        lemma_digits_value_positive(d.drop_last());
    } else {
        assert(is_digit(d[0]));
    }
}

/// A canonical numeral is the numeral written for the number it denotes.
pub proof fn lemma_canonical_digits(d: Seq<u8>)
    requires
        canonical_digits(d),
    ensures
        decimal_digits(digits_value(d)) == d,
    decreases d.len(),
{
    let x = d.last();
    assert(is_digit(d[d.len() - 1]));
    if d.len() == 1 {
        assert(d.drop_last() =~= Seq::<u8>::empty());
        assert(digits_value(d.drop_last()) == 0);
        assert(digits_value(d) == (x - 48) as nat);
        assert(decimal_digits(digits_value(d)) == seq![x]);
        assert(d =~= seq![x]);
    } else {
        let p = d.drop_last();
        assert(p[0] == d[0]);
        assert(all_digits(p));
        lemma_canonical_digits(p);
        lemma_digits_value_positive(p);
        let a = digits_value(p);
        let n = digits_value(d);
        assert(n == a * 10 + (x - 48) as nat);
        assert(n / 10 == a && n % 10 == (x - 48) as nat) by (nonlinear_arith)
            requires
                n == a * 10 + (x - 48) as nat,
                48 <= x <= 57,
        ;
        assert(decimal_digits(n) =~= d);
    }
}

/// The signed numeral of `i` reads back as `i`.
pub proof fn lemma_signed_decimal(i: i64)
    ensures
        spec_parse_i64(signed_decimal(i as int)) == Some(i),
        signed_decimal(i as int).len() >= 1,
        signed_decimal(i as int).len() >= 2 && signed_decimal(i as int)[0] == 45 ==> signed_decimal(
            i as int,
        )[1] != 48,
        signed_decimal(i as int).len() > 1 ==> signed_decimal(i as int)[0] != 48,
        forall|j: int|
            0 <= j < signed_decimal(i as int).len() ==> {
                let b = #[trigger] signed_decimal(i as int)[j];
                is_digit(b) || b == 45
            },
{
    let s = signed_decimal(i as int);
    if i < 0 {
        let m = (-i) as nat;
        lemma_decimal_digits(m);
        let d = decimal_digits(m);
        assert(s.drop_first() =~= d);
        assert(s[1] == d[0]);
        assert(forall|j: int| 1 <= j < s.len() ==> s[j] == d[j - 1]);
    } else {
        lemma_decimal_digits(i as nat);
        let d = decimal_digits(i as nat);
        assert(is_digit(d[0]));
        assert(unsigned_body(s) =~= d);
        if s.len() > 1 {
            assert(s[0] != 48);
        }
    }
}

/// Reads `buf[start..end]` as `usize::from_str` would.
pub fn parse_usize_digits(buf: &[u8], start: usize, end: usize) -> (r: Option<usize>)
    requires
        start <= end <= buf.len(),
    ensures
        match spec_parse_usize(buf@.subrange(start as int, end as int)) {
            Some(v) => r == Some(v as usize),
            None => r is None,
        },
{
    let ghost s = buf@.subrange(start as int, end as int);
    let mut i = start;
    if i < end && buf[i] == 43 {
        i = i + 1;
    }
    let ghost first = i;
    let ghost d = buf@.subrange(first as int, end as int);
    assert(unsigned_body(s) =~= d);
    if i == end {
        return None;
    }
    let mut v: usize = 0;
    while i < end
        invariant
            start <= first <= i <= end <= buf.len(),
            s == buf@.subrange(start as int, end as int),
            d == buf@.subrange(first as int, end as int),
            unsigned_body(s) == d,
            d.len() > 0,
            all_digits(d.take(i - first)),
            v == digits_value(d.take(i - first)),
        decreases end - i,
    {
        let b = buf[i];
        assert(b == d[i - first]);
        if b < 48 || b > 57 {
            return None;
        }
        proof {
            lemma_digits_value_step(d, i - first);
            assert(d.take(i - first + 1).drop_last() =~= d.take(i - first));
        }
        let dg = (b - 48) as usize;
        match v.checked_mul(10) {
            Some(t) => {
                match t.checked_add(dg) {
                    Some(nv) => {
                        v = nv;
                    },
                    None => {
                        proof {
                            if all_digits(d) {
                                lemma_digits_value_prefix(d, i - first + 1);
                            }
                        }
                        return None;
                    },
                }
            },
            None => {
                proof {
                    if all_digits(d) {
                        lemma_digits_value_prefix(d, i - first + 1);
                    }
                }
                return None;
            },
        }
        i = i + 1;
    }
    assert(d.take(i - first) =~= d);
    Some(v)
}

/// Reads `buf[start..end]` as `i64::from_str` would.
pub fn parse_i64_digits(buf: &[u8], start: usize, end: usize) -> (r: Option<i64>)
    requires
        start <= end <= buf.len(),
    ensures
        r == spec_parse_i64(buf@.subrange(start as int, end as int)),
{
    let ghost s = buf@.subrange(start as int, end as int);
    let negative = start < end && buf[start] == 45;
    let mut i = start;
    if i < end && (buf[i] == 43 || buf[i] == 45) {
        i = i + 1;
    }
    let ghost first = i;
    let ghost d = buf@.subrange(first as int, end as int);
    if negative {
        assert(s.drop_first() =~= d);
    } else {
        assert(unsigned_body(s) =~= d);
    }
    if i == end {
        return None;
    }
    let limit: u64 = if negative {
        0x8000_0000_0000_0000u64
    } else {
        0x7fff_ffff_ffff_ffffu64
    };
    let mut v: u64 = 0;
    while i < end
        invariant
            start <= first <= i <= end <= buf.len(),
            s == buf@.subrange(start as int, end as int),
            d == buf@.subrange(first as int, end as int),
            negative ==> s.len() > 0 && s[0] == 45 && s.drop_first() == d,
            !negative ==> !(s.len() > 0 && s[0] == 45) && unsigned_body(s) == d,
            limit == (if negative { 0x8000_0000_0000_0000u64 } else { 0x7fff_ffff_ffff_ffffu64 }),
            d.len() > 0,
            all_digits(d.take(i - first)),
            v == digits_value(d.take(i - first)),
            v <= limit,
        decreases end - i,
    {
        let b = buf[i];
        assert(b == d[i - first]);
        if b < 48 || b > 57 {
            return None;
        }
        proof {
            lemma_digits_value_step(d, i - first);
            assert(d.take(i - first + 1).drop_last() =~= d.take(i - first));
        }
        let dg = (b - 48) as u64;
        if v > (limit - dg) / 10 {
            proof {
                assert(v * 10 + dg > limit);
                if all_digits(d) {
                    lemma_digits_value_prefix(d, i - first + 1);
                }
            }
            return None;
        }
        v = v * 10 + dg;
        i = i + 1;
    }
    assert(d.take(i - first) =~= d);
    if negative {
        if v == 0x8000_0000_0000_0000u64 {
            Some(-9223372036854775807i64 - 1)
        } else {
            let w = v as i64;
            Some(-w)
        }
    } else {
        Some(v as i64)
    }
}

/// Appends the decimal numeral of `n`.
pub fn push_decimal(out: &mut Vec<u8>, n: u64)
    ensures
        final(out)@ == old(out)@ + decimal_digits(n as nat),
    decreases n,
{
    if n >= 10 {
        push_decimal(out, n / 10);
    }
    out.push((48 + n % 10) as u8);
    proof {
        if n >= 10 {
            assert(old(out)@ + decimal_digits(n as nat) =~= old(out)@ + decimal_digits((n / 10) as nat)
                + seq![(48 + n % 10) as u8]);
        } else {
            assert(old(out)@ + decimal_digits(n as nat) =~= old(out)@ + seq![(48 + n % 10) as u8]);
        }
    }
}

/// Appends the decimal numeral of `i`, as `i64::to_string` writes it.
pub fn push_signed_decimal(out: &mut Vec<u8>, i: i64)
    ensures
        final(out)@ == old(out)@ + signed_decimal(i as int),
{
    if i < 0 {
        out.push(45);
        let m: u64 = if i == -9223372036854775807i64 - 1 {
            0x8000_0000_0000_0000u64
        } else {
            (-i) as u64
        };
        push_decimal(out, m);
        assert(old(out)@ + signed_decimal(i as int) =~= old(out)@.push(45) + decimal_digits(
            m as nat,
        ));
    } else {
        push_decimal(out, i as u64);
    }
}

} // verus!
