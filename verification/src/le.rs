//! Little-endian integers in byte sequences.
use vstd::prelude::*;

verus! {

/// 256 to the power `n`.
pub open spec fn pow256(n: nat) -> nat
    decreases n,
{
    if n == 0 {
        1
    } else {
        256 * pow256((n - 1) as nat)
    }
}

/// The `n` lowest bytes of `x`, lowest first.
pub open spec fn le(x: nat, n: nat) -> Seq<u8>
    decreases n,
{
    if n == 0 {
        Seq::empty()
    } else {
        seq![(x % 256) as u8] + le(x / 256, (n - 1) as nat)
    }
}

/// The number whose bytes are `s`, lowest first.
pub open spec fn le_value(s: Seq<u8>) -> nat
    decreases s.len(),
{
    if s.len() == 0 {
        0
    } else {
        s[0] as nat + 256 * le_value(s.skip(1))
    }
}

/// A number has as many bytes as are asked for.
pub proof fn lemma_le_len(x: nat, n: nat)
    ensures
        le(x, n).len() == n,
    decreases n,
{
    if n > 0 {
        lemma_le_len(x / 256, (n - 1) as nat);
    }
}

/// Bytes stand for a number below the next power.
pub proof fn lemma_le_value_bound(s: Seq<u8>)
    ensures
        le_value(s) < pow256(s.len()),
    decreases s.len(),
{
    if s.len() > 0 {
        lemma_le_value_bound(s.skip(1));
    }
}

/// Eight bytes hold 64 bits.
pub proof fn lemma_pow256()
    ensures
        pow256(2) == 0x1_0000,
        pow256(4) == 0x1_0000_0000,
        pow256(8) == 0x1_0000_0000_0000_0000,
        forall|n: nat| n <= 8 ==> #[trigger] pow256(n) <= 0x1_0000_0000_0000_0000,
{
    reveal_with_fuel(pow256, 9);
    assert forall|n: nat| n <= 8 implies #[trigger] pow256(n) <= 0x1_0000_0000_0000_0000 by {
        if n == 0 {
        } else if n == 1 {
        } else if n == 2 {
        } else if n == 3 {
        } else if n == 4 {
        } else if n == 5 {
        } else if n == 6 {
        } else if n == 7 {
        } else {
        }
    }
}

/// Reading back the bytes of a number that fits gives the number.
pub proof fn law_le_reads_back(x: nat, n: nat)
    requires
        x < pow256(n),
    ensures
        le_value(le(x, n)) == x,
    decreases n,
{
    if n > 0 {
        let m = (n - 1) as nat;
        assert(x / 256 < pow256(m)) by {
            assert(pow256(n) == 256 * pow256(m));
        }
        law_le_reads_back(x / 256, m);
        lemma_le_len(x / 256, m);
        assert(le(x, n).skip(1) =~= le(x / 256, m));
    }
}

/// Appends the eight bytes of `x` to `out`.
pub fn push_u64(out: &mut Vec<u8>, x: u64)
    ensures
        final(out)@ == old(out)@ + le(x as nat, 8),
{
    let mut i: usize = 0;
    let mut rest: u64 = x;
    proof {
        assert(out@ + le(x as nat, 8) == old(out)@ + le(x as nat, 8));
    }
    while i < 8
        invariant
            i <= 8,
            out@ + le(rest as nat, (8 - i) as nat) == old(out)@ + le(x as nat, 8),
        decreases 8 - i,
    {
        let ghost before = out@;
        let ghost r = rest as nat;
        out.push((rest % 256) as u8);
        rest = rest / 256;
        i += 1;
        assert(before + le(r, (8 - i + 1) as nat) =~= out@ + le(rest as nat, (8 - i) as nat));
    }
    assert(out@ =~= out@ + le(rest as nat, 0));
}

/// The number in the `n` bytes of `s` from index `at` on.
pub fn read_le(s: &[u8], at: usize, n: usize) -> (x: u64)
    requires
        n <= 8,
        at + n <= s.len(),
    ensures
        x == le_value(s@.subrange(at as int, at + n)),
{
    let mut i: usize = n;
    let mut x: u64 = 0;
    while i > 0
        invariant
            i <= n <= 8,
            at + n <= s.len(),
            x == le_value(s@.subrange(at + i, at + n)),
        decreases i,
    {
        i -= 1;
        proof {
            let part = s@.subrange(at + i, at + n);
            assert(part.skip(1) =~= s@.subrange(at + i + 1, at + n));
            lemma_le_value_bound(part);
            lemma_pow256();
        }
        x = x * 256 + s[at + i] as u64;
    }
    x
}

} // verus!
