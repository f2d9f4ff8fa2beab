//! Little-endian unsigned integers of a fixed width.
use vstd::prelude::*;

verus! {

/// `256` raised to `k`.
pub open spec fn pow256(k: nat) -> nat
    decreases k,
{
    if k == 0 {
        1
    } else {
        256 * pow256((k - 1) as nat)
    }
}

/// The value of `s` read as a little-endian unsigned integer.
pub open spec fn le_val(s: Seq<u8>) -> nat
    decreases s.len(),
{
    if s.len() == 0 {
        0
    } else {
        s[0] as nat + 256 * le_val(s.subrange(1, s.len() as int))
    }
}

/// The `k` low bytes of `n`, least significant first.
pub open spec fn le_enc(n: nat, k: nat) -> Seq<u8>
    decreases k,
{
    if k == 0 {
        Seq::empty()
    } else {
        seq![(n % 256) as u8] + le_enc(n / 256, (k - 1) as nat)
    }
}

pub proof fn lemma_pow256_pos(k: nat)
    ensures
        pow256(k) >= 1,
    decreases k,
{
    if k > 0 {
        lemma_pow256_pos((k - 1) as nat);
    }
}

pub proof fn lemma_pow256_values()
    ensures
        pow256(2) == 0x1_0000,
        pow256(8) == 0x1_0000_0000_0000_0000,
{
    reveal_with_fuel(pow256, 9);
}

pub proof fn lemma_le_enc_len(n: nat, k: nat)
    ensures
        le_enc(n, k).len() == k,
    decreases k,
{
    if k > 0 {
        lemma_le_enc_len(n / 256, (k - 1) as nat);
    }
}

pub proof fn lemma_le_val_bound(s: Seq<u8>)
    ensures
        le_val(s) < pow256(s.len()),
    decreases s.len(),
{
    if s.len() > 0 {
        lemma_le_val_bound(s.subrange(1, s.len() as int));
    }
}

/// Reading back the `k` low bytes of a value below `256^k` gives the value.
pub proof fn lemma_le_round_trip(n: nat, k: nat)
    requires
        n < pow256(k),
    ensures
        le_val(le_enc(n, k)) == n,
    decreases k,
{
    if k > 0 {
        let e = le_enc(n, k);
        lemma_le_enc_len(n, k);
        assert(e.subrange(1, e.len() as int) =~= le_enc(n / 256, (k - 1) as nat));
        assert(n / 256 < pow256((k - 1) as nat)) by (nonlinear_arith)
            requires
                n < 256 * pow256((k - 1) as nat),
        ;
        lemma_le_round_trip(n / 256, (k - 1) as nat);
    } else {
        assert(pow256(0) == 1);
    }
}

/// Appends the `k` low bytes of `n` to `out`, least significant first.
pub fn push_le(out: &mut Vec<u8>, n: u64, k: usize)
    ensures
        final(out)@ == old(out)@ + le_enc(n as nat, k as nat),
    decreases k,
{
    if k > 0 {
        out.push((n % 256) as u8);
        push_le(out, n / 256, k - 1);
        assert(final(out)@ =~= old(out)@ + le_enc(n as nat, k as nat));
    } else {
        assert(old(out)@ + le_enc(n as nat, 0) =~= old(out)@);
    }
}

/// The little-endian value of the `k` bytes of `d` at `pos`.
pub fn read_le(d: &[u8], pos: usize, k: usize) -> (r: u64)
    requires
        k <= 8,
        pos + k <= d@.len(),
    ensures
        r as nat == le_val(d@.subrange(pos as int, pos + k)),
    decreases k,
{
    if k == 0 {
        0
    } else {
        let lo = d[pos];
        let hi = read_le(d, pos + 1, k - 1);
        proof {
            let s = d@.subrange(pos as int, pos + k);
            assert(s.subrange(1, s.len() as int) =~= d@.subrange(pos + 1, pos + k));
            lemma_le_val_bound(d@.subrange(pos + 1, pos + k));
            lemma_pow256_values();
            lemma_pow256_mono((k - 1) as nat, 7);
            assert(pow256(8) == 256 * pow256(7));
        }
        lo as u64 + 256 * hi
    }
}

pub proof fn lemma_pow256_mono(a: nat, b: nat)
    requires
        a <= b,
    ensures
        pow256(a) <= pow256(b),
    decreases b,
{
    if a < b {
        lemma_pow256_mono(a, (b - 1) as nat);
        lemma_pow256_pos((b - 1) as nat);
    }
}

} // verus!
