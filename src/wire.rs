//! Little-endian integers and byte strings, as the ledger's records lay them out.

use vstd::prelude::*;

verus! {

/// 256 to the power `n`.
pub open spec fn pow256(n: nat) -> nat
    decreases n,
{
    if n == 0 {
        1
    } else {
        256 * pow256((n - 1) as nat)
    }
}

/// The number that the bytes `s` write, least significant byte first.
pub open spec fn le_value(s: Seq<u8>) -> nat
    decreases s.len(),
{
    if s.len() == 0 {
        0
    } else {
        s[0] as nat + 256 * le_value(s.drop_first())
    }
}

/// The `n` bytes that write `v`, least significant first.
pub open spec fn le_bytes(v: nat, n: nat) -> Seq<u8>
    decreases n,
{
    if n == 0 {
        Seq::empty()
    } else {
        seq![(v % 256) as u8] + le_bytes(v / 256, (n - 1) as nat)
    }
}

/// The eight bytes that write `v`.
pub open spec fn u64_bytes(v: u64) -> Seq<u8> {
    le_bytes(v as nat, 8)
}

/// The number that eight bytes from `pos` on write.
pub open spec fn u64_at(s: Seq<u8>, pos: int) -> nat {
    le_value(s.subrange(pos, pos + 8))
}

pub proof fn lemma_pow256_8()
    ensures
        pow256(8) == 0x1_0000_0000_0000_0000,
{
    reveal_with_fuel(pow256, 9);
}

pub proof fn lemma_pow256_monotonic(a: nat, b: nat)
    requires
        a <= b,
    ensures
        pow256(a) <= pow256(b),
    decreases b,
{
    if a < b {
        lemma_pow256_monotonic(a, (b - 1) as nat);
    }
}

pub proof fn lemma_le_bytes_len(v: nat, n: nat)
    ensures
        le_bytes(v, n).len() == n,
    decreases n,
{
    if n > 0 {
        lemma_le_bytes_len(v / 256, (n - 1) as nat);
    }
}

/// Bytes written from a number read back as that number.
pub proof fn lemma_le_round_trip(v: nat, n: nat)
    requires
        v < pow256(n),
    ensures
        le_value(le_bytes(v, n)) == v,
        le_bytes(v, n).len() == n,
    decreases n,
{
    lemma_le_bytes_len(v, n);
    if n > 0 {
        let p = pow256((n - 1) as nat);
        assert(v / 256 < p) by (nonlinear_arith)
            requires
                v < 256 * p,
        ;
        lemma_le_round_trip(v / 256, (n - 1) as nat);
        assert(le_bytes(v, n).drop_first() =~= le_bytes(v / 256, (n - 1) as nat));
        assert(v == v % 256 + 256 * (v / 256)) by (nonlinear_arith);
    } else {
        assert(v == 0);
    }
}

pub proof fn lemma_u64_round_trip(v: u64)
    ensures
        le_value(u64_bytes(v)) == v,
        u64_bytes(v).len() == 8,
{
    lemma_pow256_8();
    lemma_le_round_trip(v as nat, 8);
}

/// Reads the number that eight bytes from `pos` on write.
pub fn read_u64(s: &[u8], pos: usize) -> (r: u64)
    requires
        pos + 8 <= s@.len(),
    ensures
        r == u64_at(s@, pos as int),
{
    let ghost w = s@.subrange(pos as int, pos + 8);
    let n = s.len();
    let mut v: u64 = 0;
    let mut k: usize = 8;
    while k > 0
        invariant
            k <= 8,
            n == s@.len(),
            pos + 8 <= n,
            w == s@.subrange(pos as int, pos + 8),
            v as nat == le_value(w.subrange(k as int, 8)),
            v < pow256((8 - k) as nat),
        decreases k,
    {
        let ghost tail = w.subrange(k as int, 8);
        let b = s[pos + (k - 1)];
        let ghost p = pow256((8 - k) as nat);
        proof {
            let ext = w.subrange(k - 1, 8);
            assert(ext.drop_first() =~= tail);
            assert(ext[0] == b);
            lemma_pow256_8();
            lemma_pow256_monotonic((8 - k) as nat, 7);
            reveal_with_fuel(pow256, 8);
            assert((b as nat) + 256 * (v as nat) < 256 * p) by (nonlinear_arith)
                requires
                    (b as nat) < 256,
                    (v as nat) < p,
            ;
            assert(256 * p <= 0x1_0000_0000_0000_0000) by (nonlinear_arith)
                requires
                    p <= pow256(7),
                    pow256(7) == 0x100_0000_0000_0000,
            ;
        }
        v = (b as u64) + 256 * v;
        k = k - 1;
        proof {
            assert(pow256((8 - k) as nat) == 256 * p);
        }
    }
    assert(w.subrange(0, 8) =~= w);
    v
}

/// Appends the eight bytes that write `v`.
pub fn push_u64(out: &mut Vec<u8>, v: u64)
    ensures
        final(out)@ == old(out)@ + u64_bytes(v),
{
    let ghost start = old(out)@;
    let mut x: u64 = v;
    let mut k: usize = 0;
    while k < 8
        invariant
            k <= 8,
            out@.len() == start.len() + k,
            out@.subrange(0, start.len() as int) == start,
            u64_bytes(v) == out@.subrange(start.len() as int, out@.len() as int) + le_bytes(
                x as nat,
                (8 - k) as nat,
            ),
        decreases 8 - k,
    {
        let ghost prev = out@;
        out.push((x % 256) as u8);
        proof {
            let m = (8 - k) as nat;
            assert(le_bytes(x as nat, m) == seq![(x as nat % 256) as u8] + le_bytes(
                x as nat / 256,
                (m - 1) as nat,
            ));
            assert(out@.subrange(start.len() as int, out@.len() as int) =~= prev.subrange(
                start.len() as int,
                prev.len() as int,
            ) + seq![(x % 256) as u8]);
            assert(out@.subrange(0, start.len() as int) =~= prev.subrange(0, start.len() as int));
        }
        x = x / 256;
        k = k + 1;
        assert(u64_bytes(v) =~= out@.subrange(start.len() as int, out@.len() as int) + le_bytes(
            x as nat,
            (8 - k) as nat,
        ));
    }
    assert(out@ =~= out@.subrange(0, start.len() as int) + out@.subrange(
        start.len() as int,
        out@.len() as int,
    ));
    assert(le_bytes(x as nat, 0) =~= Seq::<u8>::empty());
    assert(u64_bytes(v) =~= out@.subrange(start.len() as int, out@.len() as int));
}

/// Appends the bytes of `s`.
pub fn push_all(out: &mut Vec<u8>, s: &[u8])
    ensures
        final(out)@ == old(out)@ + s@,
{
    let mut i: usize = 0;
    while i < s.len()
        invariant
            i <= s@.len(),
            out@ == old(out)@ + s@.subrange(0, i as int),
        decreases s@.len() - i,
    {
        out.push(s[i]);
        i = i + 1;
        assert(out@ =~= old(out)@ + s@.subrange(0, i as int));
    }
    assert(s@.subrange(0, s@.len() as int) =~= s@);
}

} // verus!
