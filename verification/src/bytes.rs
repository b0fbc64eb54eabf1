//! Unsigned integers as byte strings of a chosen width.
//!
//! The stream and the device state records are little-endian; the firmware
//! configuration of the frame buffer is big-endian.

use vstd::prelude::*;

verus! {

/// 256 to the power `n`: the number of values that `n` bytes can hold.
pub open spec fn pow256(n: nat) -> nat
    decreases n,
{
    if n == 0 {
        1
    } else {
        256 * pow256((n - 1) as nat)
    }
}

/// The number that `s` spells with its least significant byte first.
pub open spec fn le_val(s: Seq<u8>) -> nat
    decreases s.len(),
{
    if s.len() == 0 {
        0
    } else {
        s[0] as nat + 256 * le_val(s.drop_first())
    }
}

/// The number that `s` spells with its most significant byte first.
pub open spec fn be_val(s: Seq<u8>) -> nat
    decreases s.len(),
{
    if s.len() == 0 {
        0
    } else {
        256 * be_val(s.drop_last()) + s.last() as nat
    }
}

/// The `n` low bytes of `v`, least significant first.
pub open spec fn le_enc(v: nat, n: nat) -> Seq<u8>
    decreases n,
{
    if n == 0 {
        Seq::<u8>::empty()
    } else {
        seq![(v % 256) as u8] + le_enc(v / 256, (n - 1) as nat)
    }
}

/// The powers of 256 that fit a machine word.
pub proof fn lemma_pow256_values()
    ensures
        pow256(0) == 1,
        pow256(1) == 0x100,
        pow256(2) == 0x1_0000,
        pow256(3) == 0x100_0000,
        pow256(4) == 0x1_0000_0000,
        pow256(5) == 0x100_0000_0000,
        pow256(6) == 0x1_0000_0000_0000,
        pow256(7) == 0x100_0000_0000_0000,
        pow256(8) == 0x1_0000_0000_0000_0000,
{
    reveal_with_fuel(pow256, 10);
}

/// The powers of 256 grow with the exponent.
pub proof fn lemma_pow256_monotonic(a: nat, b: nat)
    requires
        a <= b,
    ensures
        0 < pow256(a) <= pow256(b),
    decreases b,
{
    if b == 0 {
    } else if a == b {
        lemma_pow256_monotonic((a - 1) as nat, (b - 1) as nat);
    } else {
        lemma_pow256_monotonic(a, (b - 1) as nat);
    }
}

/// An encoding has the width that was asked for.
pub proof fn lemma_le_enc_len(v: nat, n: nat)
    ensures
        le_enc(v, n).len() == n,
    decreases n,
{
    if n > 0 {
        lemma_le_enc_len(v / 256, (n - 1) as nat);
    }
}

/// What `n` bytes spell is below 256 to the `n`.
pub proof fn lemma_le_val_bound(s: Seq<u8>)
    ensures
        le_val(s) < pow256(s.len()),
    decreases s.len(),
{
    if s.len() > 0 {
        lemma_le_val_bound(s.drop_first());
    }
}

/// What `n` bytes spell is below 256 to the `n`.
pub proof fn lemma_be_val_bound(s: Seq<u8>)
    ensures
        be_val(s) < pow256(s.len()),
    decreases s.len(),
{
    if s.len() > 0 {
        lemma_be_val_bound(s.drop_last());
    }
}

/// Reading back an encoding yields the number, reduced to the width.
pub proof fn lemma_le_val_of_enc(v: nat, n: nat)
    ensures
        le_val(le_enc(v, n)) == v % pow256(n),
    decreases n,
{
    if n == 0 {
    } else {
        let rest = le_enc(v / 256, (n - 1) as nat);
        let s = le_enc(v, n);
        lemma_le_enc_len(v / 256, (n - 1) as nat);
        assert(s.drop_first() =~= rest);
        lemma_le_val_of_enc(v / 256, (n - 1) as nat);
        let p = pow256((n - 1) as nat);
        lemma_pow256_monotonic(0, (n - 1) as nat);
        vstd::arithmetic::div_mod::lemma_breakdown(v as int, 256, p as int);
    }
}

/// A number that fits the width is read back unchanged.
pub proof fn lemma_le_roundtrip(v: nat, n: nat)
    requires
        v < pow256(n),
    ensures
        le_val(le_enc(v, n)) == v,
        le_enc(v, n).len() == n,
{
    lemma_le_val_of_enc(v, n);
    lemma_le_enc_len(v, n);
    assert(v % pow256(n) == v) by (nonlinear_arith)
        requires
            v < pow256(n),
    ;
}

/// Encoding what a byte string spells, at its own width, gives it back.
pub proof fn lemma_le_enc_of_val(s: Seq<u8>)
    ensures
        le_enc(le_val(s), s.len()) == s,
    decreases s.len(),
{
    if s.len() == 0 {
        assert(le_enc(le_val(s), s.len()) =~= s);
    } else {
        let v = le_val(s);
        let tail = s.drop_first();
        lemma_le_enc_of_val(tail);
        assert(v % 256 == s[0] as nat);
        assert(v / 256 == le_val(tail));
        assert(le_enc(v, s.len()) =~= s);
    }
}

/// Reads the `n` bytes of `data` from `pos` on as a little-endian number.
pub fn read_le(data: &[u8], pos: usize, n: usize) -> (v: u64)
    requires
        n <= 8,
        pos + n <= data@.len(),
    ensures
        v as nat == le_val(data@.subrange(pos as int, pos + n)),
{
    let total: usize = data.len();
    let mut acc: u64 = 0;
    let mut i: usize = n;
    while i > 0
        invariant
            total == data@.len(),
            n <= 8,
            pos + n <= data@.len(),
            i <= n,
            acc as nat == le_val(data@.subrange(pos + i, pos + n)),
        decreases i,
    {
        let ghost older = data@.subrange(pos + i, pos + n);
        i = i - 1;
        let ghost newer = data@.subrange(pos + i, pos + n);
        proof {
            assert(newer.drop_first() =~= older);
            assert(newer[0] == data@[pos + i]);
            lemma_le_val_bound(older);
            lemma_le_val_bound(newer);
            lemma_pow256_monotonic(newer.len(), 8);
            lemma_pow256_values();
        }
        acc = acc * 256 + data[pos + i] as u64;
    }
    acc
}

/// Reads the `n` bytes of `data` from `pos` on as a big-endian number.
pub fn read_be(data: &[u8], pos: usize, n: usize) -> (v: u64)
    requires
        n <= 8,
        pos + n <= data@.len(),
    ensures
        v as nat == be_val(data@.subrange(pos as int, pos + n)),
{
    let total: usize = data.len();
    let mut acc: u64 = 0;
    let mut i: usize = 0;
    while i < n
        invariant
            total == data@.len(),
            n <= 8,
            pos + n <= data@.len(),
            i <= n,
            acc as nat == be_val(data@.subrange(pos as int, pos + i)),
        decreases n - i,
    {
        let ghost older = data@.subrange(pos as int, pos + i);
        let ghost newer = data@.subrange(pos as int, pos + i + 1);
        proof {
            assert(newer.drop_last() =~= older);
            assert(newer.last() == data@[pos + i]);
            lemma_be_val_bound(older);
            lemma_be_val_bound(newer);
            lemma_pow256_monotonic(newer.len(), 8);
            lemma_pow256_values();
        }
        acc = acc * 256 + data[pos + i] as u64;
        i = i + 1;
    }
    acc
}

/// Appends the `n` low bytes of `v` to `out`, least significant first.
pub fn write_le(out: &mut Vec<u8>, v: u64, n: usize)
    ensures
        final(out)@ == old(out)@ + le_enc(v as nat, n as nat),
{
    let mut rest: u64 = v;
    let mut i: usize = 0;
    while i < n
        invariant
            i <= n,
            out@ + le_enc(rest as nat, (n - i) as nat) == old(out)@ + le_enc(v as nat, n as nat),
        decreases n - i,
    {
        let ghost before = out@;
        let ghost tail = le_enc((rest / 256) as nat, (n - i - 1) as nat);
        let low: u8 = (rest % 256) as u8;
        out.push(low);
        proof {
            assert(le_enc(rest as nat, (n - i) as nat) =~= seq![low] + tail);
            assert(out@ + tail =~= before + (seq![low] + tail));
        }
        rest = rest / 256;
        i = i + 1;
    }
    proof {
        assert(out@ + le_enc(rest as nat, 0) =~= out@);
    }
}

} // verus!
