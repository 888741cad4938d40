use vstd::prelude::*;

verus! {

/// `256` to the power `n`.
pub open spec fn pow256(n: nat) -> nat
    decreases n,
{
    if n == 0 {
        1
    } else {
        256 * pow256((n - 1) as nat)
    }
}

/// The `n` low bytes of `v`, least significant first.
pub open spec fn le_bytes(v: nat, n: nat) -> Seq<u8>
    decreases n,
{
    if n == 0 {
        Seq::empty()
    } else {
        seq![(v % 256) as u8] + le_bytes(v / 256, (n - 1) as nat)
    }
}

/// The number whose little-endian bytes are `b`.
pub open spec fn le_value(b: Seq<u8>) -> nat
    decreases b.len(),
{
    if b.len() == 0 {
        0
    } else {
        b[0] as nat + 256 * le_value(b.subrange(1, b.len() as int))
    }
}

pub proof fn lemma_pow256_values()
    ensures
        pow256(4) == 0x1_0000_0000,
        pow256(7) == 0x100_0000_0000_0000,
        pow256(8) == 0x1_0000_0000_0000_0000,
{
    reveal_with_fuel(pow256, 9);
}

pub proof fn lemma_pow256_mono(a: nat, b: nat)
    requires
        a <= b,
    ensures
        pow256(a) <= pow256(b),
    decreases b,
{
    if a < b {
        lemma_pow256_mono(a, (b - 1) as nat);
    }
}

pub proof fn lemma_le_bytes_len(v: nat, n: nat)
    ensures
        le_bytes(v, n).len() == n,
    decreases n,
{
    if n > 0 {
        lemma_le_bytes_len(v / 256, (n - 1) as nat);
    }
}

/// Reading back the `n` low bytes of a number below `256^n` gives the number.
pub proof fn lemma_le_value_of_bytes(v: nat, n: nat)
    requires
        v < pow256(n),
    ensures
        le_value(le_bytes(v, n)) == v,
    decreases n,
{
    let b = le_bytes(v, n);
    lemma_le_bytes_len(v, n);
    if n > 0 {
        let p = pow256((n - 1) as nat);
        assert(v / 256 < p) by (nonlinear_arith)
            requires
                v < 256 * p,
        ;
        lemma_le_value_of_bytes(v / 256, (n - 1) as nat);
        assert(b.subrange(1, b.len() as int) =~= le_bytes(v / 256, (n - 1) as nat));
    }
}

pub proof fn lemma_le_value_bound(b: Seq<u8>)
    ensures
        le_value(b) < pow256(b.len()),
    decreases b.len(),
{
    if b.len() > 0 {
        let t = b.subrange(1, b.len() as int);
        lemma_le_value_bound(t);
        assert(pow256(b.len()) == 256 * pow256(t.len()));
    }
}

/// Writing out the value of `b` in `b.len()` bytes gives `b` back.
pub proof fn lemma_bytes_of_le_value(b: Seq<u8>)
    ensures
        le_bytes(le_value(b), b.len()) == b,
    decreases b.len(),
{
    if b.len() > 0 {
        let t = b.subrange(1, b.len() as int);
        lemma_bytes_of_le_value(t);
        let v = le_value(b);
        assert(v % 256 == b[0] as nat);
        assert(v / 256 == le_value(t));
        assert(le_bytes(v, b.len()) =~= b);
    }
}

/// Two equal byte strings of `n` low bytes of numbers below `256^n` come from
/// equal numbers.
pub proof fn lemma_le_bytes_injective(v: nat, w: nat, n: nat)
    requires
        v < pow256(n),
        w < pow256(n),
        le_bytes(v, n) == le_bytes(w, n),
    ensures
        v == w,
{
    lemma_le_value_of_bytes(v, n);
    lemma_le_value_of_bytes(w, n);
}

/// Appends the `n` low bytes of `v`, least significant first.
pub fn push_le(out: &mut Vec<u8>, v: u64, n: usize)
    requires
        n <= 8,
    ensures
        final(out)@ == old(out)@ + le_bytes(v as nat, n as nat),
{
    let mut x: u64 = v;
    let mut k: usize = 0;
    while k < n
        invariant
            k <= n,
            out@ + le_bytes(x as nat, (n - k) as nat) == old(out)@ + le_bytes(v as nat, n as nat),
        decreases n - k,
    {
        let ghost before = out@;
        out.push((x % 256) as u8);
        proof {
            assert(le_bytes(x as nat, (n - k) as nat) == seq![(x % 256) as u8] + le_bytes(
                (x / 256) as nat,
                (n - k - 1) as nat,
            ));
            assert(out@ + le_bytes((x / 256) as nat, (n - k - 1) as nat) =~= before + le_bytes(
                x as nat,
                (n - k) as nat,
            ));
        }
        x = x / 256;
        k = k + 1;
    }
    assert(le_bytes(x as nat, 0) =~= Seq::<u8>::empty());
    assert(out@ =~= out@ + le_bytes(x as nat, 0));
}

/// The number whose little-endian bytes are `bytes[pos..pos + n]`.
pub fn read_le(bytes: &[u8], pos: usize, n: usize) -> (v: u64)
    requires
        n <= 8,
        pos + n <= bytes@.len(),
    ensures
        v as nat == le_value(bytes@.subrange(pos as int, pos + n)),
{
    let len = bytes.len();
    let mut acc: u64 = 0;
    let mut k: usize = n;
    proof {
        assert(bytes@.subrange(pos + n, pos + n).len() == 0);
    }
    while k > 0
        invariant
            k <= n <= 8,
            pos + n <= len == bytes@.len(),
            acc as nat == le_value(bytes@.subrange(pos + k, pos + n)),
        decreases k,
    {
        k = k - 1;
        let b = bytes[pos + k];
        proof {
            let t = bytes@.subrange(pos + k + 1, pos + n);
            let s = bytes@.subrange(pos + k, pos + n);
            assert(s.subrange(1, s.len() as int) =~= t);
            assert(le_value(s) == b as nat + 256 * le_value(t));
            lemma_le_value_bound(t);
            lemma_pow256_mono(t.len(), 7);
            lemma_pow256_values();
        }
        acc = b as u64 + acc * 256;
    }
    acc
}

} // verus!
