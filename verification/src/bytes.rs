//! Big-endian numbers and copies of byte ranges.

use vstd::prelude::*;

verus! {

/// 256 to the power `len`.
pub open spec fn pow256(len: nat) -> nat
    decreases len,
{
    if len == 0 {
        1
    } else {
        256 * pow256((len - 1) as nat)
    }
}

/// The last `len` base-256 digits of `n`, the most significant first.
pub open spec fn be_bytes(n: nat, len: nat) -> Seq<u8>
    decreases len,
{
    if len == 0 {
        seq![]
    } else {
        be_bytes(n / 256, (len - 1) as nat).push((n % 256) as u8)
    }
}

/// The number whose base-256 digits are `s`, the most significant first.
pub open spec fn be_value(s: Seq<u8>) -> nat
    decreases s.len(),
{
    if s.len() == 0 {
        0
    } else {
        be_value(s.drop_last()) * 256 + s.last() as nat
    }
}

/// There are `len` digits.
pub proof fn lemma_be_bytes_len(n: nat, len: nat)
    ensures
        be_bytes(n, len).len() == len,
    decreases len,
{
    if len > 0 {
        lemma_be_bytes_len(n / 256, (len - 1) as nat);
    }
}

/// Reading the digits of a number that has at most `len` of them gives the
/// number back.
pub proof fn lemma_be_value_of_bytes(n: nat, len: nat)
    requires
        n < pow256(len),
    ensures
        be_value(be_bytes(n, len)) == n,
    decreases len,
{
    if len > 0 {
        let shorter = (len - 1) as nat;
        assert(n / 256 < pow256(shorter)) by (nonlinear_arith)
            requires
                n < 256 * pow256(shorter),
        ;
        lemma_be_value_of_bytes(n / 256, shorter);
        assert(be_bytes(n, len).drop_last() == be_bytes(n / 256, shorter));
    }
}

/// Writing the number that some digits spell gives the digits back.
pub proof fn lemma_be_bytes_of_value(s: Seq<u8>)
    ensures
        be_bytes(be_value(s), s.len()) == s,
        be_value(s) < pow256(s.len()),
    decreases s.len(),
{
    if s.len() > 0 {
        let front = s.drop_last();
        lemma_be_bytes_of_value(front);
        let n = be_value(s);
        assert(n / 256 == be_value(front));
        assert(n % 256 == s.last() as nat);
        assert(front.push(s.last()) == s);
    }
}

/// The powers of 256 that the formats use.
pub proof fn lemma_pow256()
    ensures
        pow256(1) == 0x100,
        pow256(2) == 0x1_0000,
        pow256(4) == 0x1_0000_0000,
        pow256(8) == 0x1_0000_0000_0000_0000,
{
    reveal_with_fuel(pow256, 9);
}

/// Numbers below 256 to the power `len` have different digits when they
/// differ.
pub proof fn lemma_be_bytes_injective(a: nat, b: nat, len: nat)
    requires
        a < pow256(len),
        b < pow256(len),
        be_bytes(a, len) == be_bytes(b, len),
    ensures
        a == b,
{
    lemma_be_value_of_bytes(a, len);
    lemma_be_value_of_bytes(b, len);
}

/// Appends `b` to `out`.
pub fn push_all(out: &mut Vec<u8>, b: &[u8])
    ensures
        final(out)@ == old(out)@ + b@,
{
    let mut i: usize = 0;
    while i < b.len()
        invariant
            i <= b@.len(),
            out@ == old(out)@ + b@.take(i as int),
        decreases b@.len() - i,
    {
        out.push(b[i]);
        assert(b@.take(i + 1) == b@.take(i as int).push(b@[i as int]));
        i = i + 1;
    }
    assert(b@.take(b@.len() as int) == b@);
}

/// Appends `n` in two big-endian bytes.
pub fn push_u16(out: &mut Vec<u8>, n: u16)
    ensures
        final(out)@ == old(out)@ + be_bytes(n as nat, 2),
{
    out.push((n / 256) as u8);
    out.push((n % 256) as u8);
    proof {
        reveal_with_fuel(be_bytes, 3);
        assert(out@ == old(out)@ + be_bytes(n as nat, 2));
    }
}

/// Appends `n` in four big-endian bytes.
pub fn push_u32(out: &mut Vec<u8>, n: u32)
    ensures
        final(out)@ == old(out)@ + be_bytes(n as nat, 4),
{
    out.push((n / 0x100_0000) as u8);
    out.push((n / 0x1_0000 % 256) as u8);
    out.push((n / 0x100 % 256) as u8);
    out.push((n % 256) as u8);
    proof {
        reveal_with_fuel(be_bytes, 5);
        assert(out@ == old(out)@ + be_bytes(n as nat, 4));
    }
}

/// Appends `n` in eight big-endian bytes.
pub fn push_u64(out: &mut Vec<u8>, n: u64)
    ensures
        final(out)@ == old(out)@ + be_bytes(n as nat, 8),
{
    let n1: u64 = n / 256;
    let n2: u64 = n1 / 256;
    let n3: u64 = n2 / 256;
    let n4: u64 = n3 / 256;
    let n5: u64 = n4 / 256;
    let n6: u64 = n5 / 256;
    let n7: u64 = n6 / 256;
    out.push((n7 % 256) as u8);
    out.push((n6 % 256) as u8);
    out.push((n5 % 256) as u8);
    out.push((n4 % 256) as u8);
    out.push((n3 % 256) as u8);
    out.push((n2 % 256) as u8);
    out.push((n1 % 256) as u8);
    out.push((n % 256) as u8);
    proof {
        assert(be_bytes(n7 as nat / 256, 0) == Seq::<u8>::empty());
        assert(be_bytes(n7 as nat, 1) == seq![(n7 % 256) as u8]);
        assert(be_bytes(n6 as nat, 2) == be_bytes(n7 as nat, 1).push((n6 % 256) as u8));
        assert(be_bytes(n5 as nat, 3) == be_bytes(n6 as nat, 2).push((n5 % 256) as u8));
        assert(be_bytes(n4 as nat, 4) == be_bytes(n5 as nat, 3).push((n4 % 256) as u8));
        assert(be_bytes(n3 as nat, 5) == be_bytes(n4 as nat, 4).push((n3 % 256) as u8));
        assert(be_bytes(n2 as nat, 6) == be_bytes(n3 as nat, 5).push((n2 % 256) as u8));
        assert(be_bytes(n1 as nat, 7) == be_bytes(n2 as nat, 6).push((n1 % 256) as u8));
        assert(be_bytes(n as nat, 8) == be_bytes(n1 as nat, 7).push((n % 256) as u8));
        assert(out@ == old(out)@ + be_bytes(n as nat, 8));
    }
}

/// The number in a big-endian pair of bytes.
pub fn u16_from(high: u8, low: u8) -> (r: u16)
    ensures
        r == be_value(seq![high, low]),
{
    proof {
        reveal_with_fuel(be_value, 3);
        assert(seq![high, low].drop_last() == seq![high]);
        assert(seq![high].drop_last() == Seq::<u8>::empty());
    }
    high as u16 * 256 + low as u16
}

/// The number in four big-endian bytes.
pub fn u32_from(b: &[u8]) -> (r: u32)
    requires
        b@.len() == 4,
    ensures
        r == be_value(b@),
{
    proof {
        reveal_with_fuel(be_value, 5);
        let s = b@;
        assert(s.drop_last() == s.take(3));
        assert(s.take(3).drop_last() == s.take(2));
        assert(s.take(2).drop_last() == s.take(1));
        assert(s.take(1).drop_last() == s.take(0));
    }
    b[0] as u32 * 0x100_0000 + b[1] as u32 * 0x1_0000 + b[2] as u32 * 0x100 + b[3] as u32
}

/// A copy of `b` from `from` up to `to`.
pub fn copy_range(b: &[u8], from: usize, to: usize) -> (r: Vec<u8>)
    requires
        from <= to <= b@.len(),
    ensures
        r@ == b@.subrange(from as int, to as int),
{
    let mut out: Vec<u8> = Vec::new();
    let mut i: usize = from;
    while i < to
        invariant
            from <= i <= to <= b@.len(),
            out@ == b@.subrange(from as int, i as int),
        decreases to - i,
    {
        out.push(b[i]);
        i = i + 1;
    }
    out
}

/// The array of the `N` bytes of `b` from `from` on.
pub fn array_at<const N: usize>(b: &[u8], from: usize) -> (r: [u8; N])
    requires
        from + N <= b@.len(),
    ensures
        r@ == b@.subrange(from as int, from + N),
{
    let mut out: [u8; N] = [0u8;N];
    let mut i: usize = 0;
    while i < N
        invariant
            i <= N,
            from + N <= b@.len() == b.len(),
            forall|j: int| 0 <= j < i ==> out@[j] == b@[from + j],
        decreases N - i,
    {
        out[i] = b[from + i];
        i = i + 1;
    }
    assert(out@ == b@.subrange(from as int, from + N));
    out
}

/// Big-endian bytes grow digit by digit: one more byte at the end is the lowest
/// one, and what stands before it is the rest of the number.
pub proof fn big_endian_digit_by_digit(n: nat, len: nat, s: Seq<u8>, b: u8)
    ensures
        be_bytes(n, 0).len() == 0,
        be_bytes(256 * n + b as nat, len + 1) == be_bytes(n, len).push(b),
        be_value(Seq::empty()) == 0,
        be_value(s.push(b)) == 256 * be_value(s) + b as nat,
{
    let m = 256 * n + b as nat;
    assert(m / 256 == n && m % 256 == b as nat) by (nonlinear_arith)
        requires
            m == 256 * n + b as nat,
            b < 256,
    ;
    assert(s.push(b).drop_last() =~= s);
    assert(be_bytes(m, len + 1) =~= be_bytes(n, len).push(b));
}

} // verus!
