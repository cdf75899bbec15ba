//! Little-endian base-128 varints: seven bits to a byte, least significant
//! group first, the top bit set on every byte but the last.

use vstd::prelude::*;

verus! {

/// A number as a little-endian base-128 varint: seven bits to a byte, least
/// significant group first, the top bit set on every byte but the last.
pub open spec fn varint(n: nat) -> Seq<u8>
    decreases n,
{
    if n < 128 {
        seq![n as u8]
    } else {
        seq![((n % 128) + 128) as u8] + varint(n / 128)
    }
}

/// Reads a varint from the start of `s`, taking at most `k` bytes: its value
/// and the number of bytes that it took.
pub open spec fn read_varint(s: Seq<u8>, k: nat) -> Option<(nat, nat)>
    decreases k,
{
    if k == 0 || s.len() == 0 {
        None
    } else if s[0] < 128 {
        Some((s[0] as nat, 1))
    } else {
        match read_varint(s.drop_first(), (k - 1) as nat) {
            Some((v, c)) => Some((((s[0] - 128) + 128 * v) as nat, c + 1)),
            None => None,
        }
    }
}

/// 128 to the power of `k`.
pub open spec fn pow128(k: nat) -> nat
    decreases k,
{
    if k == 0 {
        1
    } else {
        128 * pow128((k - 1) as nat)
    }
}

pub proof fn lemma_pow128_mono(a: nat, b: nat)
    requires
        a <= b,
    ensures
        1 <= pow128(a) <= pow128(b),
    decreases b,
{
    if b > 0 {
        if a < b {
            lemma_pow128_mono(a, (b - 1) as nat);
        }
        lemma_pow128_mono(0, (b - 1) as nat);
    }
}

/// A number below 128 to the power of `k` takes at most `k` bytes.
pub proof fn lemma_varint_len(n: nat, k: nat)
    requires
        1 <= k,
        n < pow128(k),
    ensures
        1 <= varint(n).len() <= k,
    decreases n,
{
    if n >= 128 {
        let m = n / 128;
        let q = pow128((k - 1) as nat);
        assert(m < q) by (nonlinear_arith)
            requires
                n < 128 * q,
                m == n / 128,
        ;
        if k == 1 {
            assert(false);
        }
        lemma_varint_len(m, (k - 1) as nat);
    }
}

/// Reading a varint that was written gives back its value and its length.
pub proof fn lemma_read_varint(n: nat, rest: Seq<u8>, k: nat)
    requires
        varint(n).len() <= k,
    ensures
        read_varint(varint(n) + rest, k) == Some((n, varint(n).len())),
    decreases n,
{
    let s = varint(n) + rest;
    if n < 128 {
        assert(s[0] == n as u8);
    } else {
        let m = n / 128;
        assert(varint(n) == seq![((n % 128) + 128) as u8] + varint(m));
        lemma_read_varint(m, rest, (k - 1) as nat);
        assert(s.drop_first() =~= varint(m) + rest);
        assert(s[0] == ((n % 128) + 128) as u8);
        assert((s[0] - 128) + 128 * m == n);
    }
}

pub proof fn lemma_read_varint_bound(s: Seq<u8>, k: nat)
    requires
        read_varint(s, k) is Some,
    ensures
        read_varint(s, k) matches Some((v, c)) && 1 <= c <= k && c <= s.len() && v < pow128(c),
    decreases k,
{
    if s[0] >= 128 {
        lemma_read_varint_bound(s.drop_first(), (k - 1) as nat);
        let (v1, c1) = read_varint(s.drop_first(), (k - 1) as nat).unwrap();
        let d = s[0] - 128;
        let q = pow128(c1);
        assert(d + 128 * v1 < 128 * q) by (nonlinear_arith)
            requires
                0 <= d < 128,
                v1 < q,
        ;
        assert(pow128(c1 + 1) == 128 * q);
    } else {
        reveal_with_fuel(pow128, 2);
    }
}

/// The number of bytes that the varint of `n` takes.
pub fn varint_len(n: u64) -> (r: usize)
    ensures
        r == varint(n as nat).len(),
        1 <= r <= 10,
    decreases n,
{
    proof {
        reveal_with_fuel(pow128, 11);
        lemma_varint_len(n as nat, 10);
    }
    if n < 128 {
        1
    } else {
        let r = varint_len(n / 128);
        proof {
            lemma_varint_len((n / 128) as nat, 9);
        }
        1 + r
    }
}

/// The most bytes that [take_varint] reads, enough for any `u64`.
pub const MAX_VARINT_LEN: usize = 10;

/// Reads the varint that starts at `i`, taking at most `k` bytes.
pub fn take_varint(d: &[u8], i: usize, k: usize) -> (r: Option<(u128, usize)>)
    requires
        i <= d@.len(),
        k <= MAX_VARINT_LEN,
    ensures
        match read_varint(d@.skip(i as int), k as nat) {
            None => r is None,
            Some((v, c)) => r == Some((v as u128, c as usize)) && v < pow128(c),
        },
    decreases k,
{
    if k == 0 || i >= d.len() {
        return None;
    }
    let b = d[i];
    assert(d@.skip(i as int)[0] == b);
    if b < 128 {
        proof {
            reveal_with_fuel(pow128, 2);
        }
        return Some((b as u128, 1));
    }
    assert(d@.skip(i as int).drop_first() =~= d@.skip(i + 1));
    match take_varint(d, i + 1, k - 1) {
        None => None,
        Some((v, c)) => {
            proof {
                lemma_read_varint_bound(d@.skip(i + 1), (k - 1) as nat);
                lemma_pow128_mono(c as nat, 9);
                reveal_with_fuel(pow128, 10);
                lemma_read_varint_bound(d@.skip(i as int), k as nat);
            }
            Some(((b - 128) as u128 + 128 * v, c + 1))
        },
    }
}

/// Writes the varint of `n` at `pos` and returns the position after it.
pub fn put_varint<const N: usize>(buf: &mut [u8; N], pos: usize, n: usize) -> (end: usize)
    requires
        pos + varint(n as nat).len() <= N,
    ensures
        end == pos + varint(n as nat).len(),
        final(buf)@.subrange(pos as int, end as int) == varint(n as nat),
        forall|j: int| 0 <= j < N && !(pos <= j < end) ==> final(buf)@[j] == old(buf)@[j],
        final(buf)@.len() == N,
{
    let mut v: usize = n;
    let mut p: usize = pos;
    while v >= 128
        invariant
            pos <= p,
            p + varint(v as nat).len() == pos + varint(n as nat).len(),
            pos + varint(n as nat).len() <= N,
            buf@.len() == N,
            buf@.subrange(pos as int, p as int) + varint(v as nat) == varint(n as nat),
            forall|j: int| 0 <= j < N && !(pos <= j < p) ==> buf@[j] == old(buf)@[j],
        decreases v,
    {
        let ghost before = buf@;
        assert(varint(v as nat) == seq![((v % 128) + 128) as u8] + varint((v / 128) as nat));
        buf[p] = ((v % 128) + 128) as u8;
        assert(buf@.subrange(pos as int, p + 1) =~= before.subrange(pos as int, p as int) + seq![
            ((v % 128) + 128) as u8,
        ]);
        p = p + 1;
        v = v / 128;
    }
    let ghost before = buf@;
    buf[p] = v as u8;
    assert(buf@.subrange(pos as int, p + 1) =~= before.subrange(pos as int, p as int) + varint(
        v as nat,
    ));
    p + 1
}

/// Appends the varint of `n`.
pub fn push_varint(out: &mut Vec<u8>, n: u64)
    ensures
        final(out)@ == old(out)@ + varint(n as nat),
{
    let mut v: u64 = n;
    let ghost written: Seq<u8> = seq![];
    while v >= 128
        invariant
            out@ == old(out)@ + written,
            written + varint(v as nat) == varint(n as nat),
        decreases v,
    {
        assert(varint(v as nat) == seq![((v % 128) + 128) as u8] + varint((v / 128) as nat));
        out.push(((v % 128) + 128) as u8);
        proof {
            written = written.push(((v % 128) + 128) as u8);
            assert(written + varint((v / 128) as nat) =~= varint(n as nat));
        }
        v = v / 128;
    }
    out.push(v as u8);
    assert(written + varint(v as nat) =~= written.push(v as u8));
}

} // verus!
