//! Big-endian numbers, as the tracker and peer protocols write them.
use vstd::prelude::*;

verus! {

/// `x` written in `n` bytes, most significant first (keeping its low `n`
/// bytes).
pub open spec fn be_bytes(x: nat, n: nat) -> Seq<u8>
    decreases n,
{
    if n == 0 {
        Seq::empty()
    } else {
        be_bytes(x / 256, (n - 1) as nat).push((x % 256) as u8)
    }
}

/// The number that bytes denote, most significant first.
pub open spec fn be_value(s: Seq<u8>) -> nat
    decreases s.len(),
{
    if s.len() == 0 {
        0
    } else {
        be_value(s.drop_last()) * 256 + s.last() as nat
    }
}

pub open spec fn pow256(n: nat) -> nat
    decreases n,
{
    if n == 0 {
        1
    } else {
        256 * pow256((n - 1) as nat)
    }
}

pub proof fn lemma_be_bytes_len(x: nat, n: nat)
    ensures
        be_bytes(x, n).len() == n,
    decreases n,
{
    if n > 0 {
        lemma_be_bytes_len(x / 256, (n - 1) as nat);
    }
}

/// Reading back `n` bytes written from a number below `256^n` gives it.
pub proof fn lemma_be_value_of_bytes(x: nat, n: nat)
    requires
        x < pow256(n),
    ensures
        be_value(be_bytes(x, n)) == x,
    decreases n,
{
    if n > 0 {
        let p = pow256((n - 1) as nat);
        assert(x / 256 < p) by (nonlinear_arith)
            requires
                x < 256 * p,
        ;
        lemma_be_value_of_bytes(x / 256, (n - 1) as nat);
        assert(be_bytes(x, n).drop_last() =~= be_bytes(x / 256, (n - 1) as nat));
        assert(x == (x / 256) * 256 + x % 256) by (nonlinear_arith);
    }
}

/// Appends the low `n` bytes of `x`, most significant first.
pub fn push_be(out: &mut Vec<u8>, x: u64, n: usize)
    ensures
        final(out)@ == old(out)@ + be_bytes(x as nat, n as nat),
    decreases n,
{
    if n > 0 {
        push_be(out, x / 256, n - 1);
        out.push((x % 256) as u8);
        assert(old(out)@ + be_bytes(x as nat, n as nat) =~= old(out)@ + be_bytes(
            (x / 256) as nat,
            (n - 1) as nat,
        ) + seq![(x % 256) as u8]);
    } else {
        assert(old(out)@ + be_bytes(x as nat, n as nat) =~= old(out)@);
    }
}

/// Reads `buf[start..start + n]` as a big-endian number.
pub fn read_be(buf: &[u8], start: usize, n: usize) -> (r: u64)
    requires
        n <= 8,
        start + n <= buf@.len(),
    ensures
        r == be_value(buf@.subrange(start as int, start + n)),
        r < pow256(n as nat),
{
    let ghost s = buf@.subrange(start as int, start + n);
    assert(pow256(8) == 0x1_0000_0000_0000_0000) by {
        reveal_with_fuel(pow256, 9);
    }
    let mut v: u64 = 0;
    let mut i: usize = 0;
    assert(s.take(0) =~= Seq::<u8>::empty());
    while i < n
        invariant
            i <= n <= 8,
            start + n <= buf@.len(),
            buf@.len() == buf.len(),
            s == buf@.subrange(start as int, start + n),
            v == be_value(s.take(i as int)),
            v < pow256(i as nat),
            pow256(8) == 0x1_0000_0000_0000_0000,
        decreases n - i,
    {
        proof {
            lemma_pow256_monotone(i as nat + 1, 8);
        }
        assert(s.take(i + 1).drop_last() =~= s.take(i as int));
        assert(s[i as int] == buf@[start + i]);
        v = v * 256 + buf[start + i] as u64;
        i = i + 1;
    }
    assert(s.take(n as int) =~= s);
    v
}

proof fn lemma_pow256_monotone(a: nat, b: nat)
    requires
        a <= b,
    ensures
        pow256(a) <= pow256(b),
    decreases b,
{
    if a < b {
        lemma_pow256_monotone(a, (b - 1) as nat);
    }
}

} // verus!
