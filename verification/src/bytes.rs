//! Little-endian integer serialization: the byte-level ground layer of the
//! format, with exact round-trip lemmas.

use vstd::prelude::*;
use vstd::arithmetic::div_mod::{lemma_fundamental_div_mod, lemma_multiply_divide_lt};
use vstd::arithmetic::power::{pow, lemma_pow_increases};

verus! {

/// The little-endian byte string of length `n` holding the low `8*n` bits of `v`.
pub open spec fn le_bytes(v: nat, n: nat) -> Seq<u8>
    decreases n,
{
    if n == 0 {
        Seq::empty()
    } else {
        seq![(v % 256) as u8] + le_bytes(v / 256, (n - 1) as nat)
    }
}

/// The value of a little-endian byte string.
pub open spec fn le_val(s: Seq<u8>) -> nat
    decreases s.len(),
{
    if s.len() == 0 {
        0nat
    } else {
        (s[0] as nat) + 256 * le_val(s.drop_first())
    }
}

pub proof fn lemma_pow256_values()
    ensures
        pow(256, 0) == 1,
        pow(256, 1) == 0x100,
        pow(256, 2) == 0x10000,
        pow(256, 3) == 0x1000000,
        pow(256, 4) == 0x100000000,
        pow(256, 5) == 0x10000000000,
        pow(256, 6) == 0x1000000000000,
        pow(256, 7) == 0x100000000000000,
        pow(256, 8) == 0x10000000000000000,
{
    reveal(pow);
    assert(pow(256, 1) == 256 * pow(256, 0));
    assert(pow(256, 2) == 256 * pow(256, 1));
    assert(pow(256, 3) == 256 * pow(256, 2));
    assert(pow(256, 4) == 256 * pow(256, 3));
    assert(pow(256, 5) == 256 * pow(256, 4));
    assert(pow(256, 6) == 256 * pow(256, 5));
    assert(pow(256, 7) == 256 * pow(256, 6));
    assert(pow(256, 8) == 256 * pow(256, 7));
}

pub proof fn lemma_le_bytes_len(v: nat, n: nat)
    ensures
        le_bytes(v, n).len() == n,
    decreases n,
{
    if n > 0 {
        lemma_le_bytes_len(v / 256, (n - 1) as nat);
    }
}

pub proof fn lemma_le_val_bound(s: Seq<u8>)
    ensures
        le_val(s) < pow(256, s.len()),
    decreases s.len(),
{
    reveal(pow);
    if s.len() == 0 {
    } else {
        lemma_le_val_bound(s.drop_first());
        assert(pow(256, s.len()) == 256 * pow(256, (s.len() - 1) as nat));
    }
}

/// Decoding the little-endian bytes of `v` gives `v` back.
pub proof fn lemma_le_round_trip(v: nat, n: nat)
    requires
        v < pow(256, n),
    ensures
        le_val(le_bytes(v, n)) == v,
    decreases n,
{
    reveal(pow);
    if n == 0 {
    } else {
        let rest = le_bytes(v / 256, (n - 1) as nat);
        assert((seq![(v % 256) as u8] + rest).drop_first() =~= rest);
        assert(pow(256, n) == 256 * pow(256, (n - 1) as nat));
        lemma_multiply_divide_lt(v as int, pow(256, (n - 1) as nat), 256);
        lemma_le_round_trip(v / 256, (n - 1) as nat);
        lemma_fundamental_div_mod(v as int, 256);
    }
}

/// Appends the `n` little-endian bytes of `v` (low bits first; `n <= 8`).
pub fn push_le_n(out: &mut Vec<u8>, v: u64, n: usize)
    ensures
        final(out)@ == old(out)@ + le_bytes(v as nat, n as nat),
{
    let mut x: u64 = v;
    let mut i: usize = 0;
    proof {
        assert(out@ + le_bytes(x as nat, n as nat) =~= old(out)@ + le_bytes(v as nat, n as nat));
    }
    while i < n
        invariant
            i <= n,
            out@ + le_bytes(x as nat, (n - i) as nat) == old(out)@ + le_bytes(v as nat, n as nat),
        decreases n - i,
    {
        let ghost pre = out@;
        let b: u8 = (x % 256) as u8;
        out.push(b);
        proof {
            let rest = le_bytes((x / 256) as nat, (n - i - 1) as nat);
            assert(le_bytes(x as nat, (n - i) as nat) == seq![b] + rest);
            assert(out@ + rest =~= pre + (seq![b] + rest));
        }
        x = x / 256;
        i = i + 1;
    }
    proof {
        assert(out@ + le_bytes(x as nat, 0) =~= out@);
    }
}

/// Appends the eight little-endian bytes of `v`.
pub fn push_u64(out: &mut Vec<u8>, v: u64)
    ensures
        final(out)@ == old(out)@ + le_bytes(v as nat, 8),
{
    push_le_n(out, v, 8);
}

/// Appends all of `b`.
pub fn push_bytes(out: &mut Vec<u8>, b: &Vec<u8>)
    ensures
        final(out)@ == old(out)@ + b@,
{
    let mut i: usize = 0;
    proof {
        assert(out@ =~= old(out)@ + b@.take(0));
    }
    while i < b.len()
        invariant
            i <= b@.len(),
            out@ == old(out)@ + b@.take(i as int),
        decreases b@.len() - i,
    {
        out.push(b[i]);
        proof {
            assert(old(out)@ + b@.take(i as int) + seq![b@[i as int]] =~= old(out)@ + b@.take(
                i + 1,
            ));
        }
        i = i + 1;
    }
    proof {
        assert(b@.take(b@.len() as int) =~= b@);
    }
}

/// Copies the `n` bytes at `start` out of `b`.
pub fn copy_range(b: &Vec<u8>, start: usize, n: usize) -> (r: Vec<u8>)
    requires
        start + n <= b@.len(),
    ensures
        r@ == b@.subrange(start as int, start + n),
{
    let blen: usize = b.len();
    let mut r: Vec<u8> = Vec::new();
    let mut i: usize = 0;
    proof {
        assert(r@ =~= b@.subrange(start as int, start as int));
    }
    while i < n
        invariant
            i <= n,
            start + n <= blen,
            blen == b@.len(),
            r@ == b@.subrange(start as int, start + i),
        decreases n - i,
    {
        r.push(b[start + i]);
        proof {
            assert(b@.subrange(start as int, start + i).push(b@[start + i]) =~= b@.subrange(
                start as int,
                start + i + 1,
            ));
        }
        i = i + 1;
    }
    r
}

/// Reads the `n`-byte little-endian integer at `off` (`n <= 8`).
pub fn read_le_n(b: &Vec<u8>, off: usize, n: usize) -> (r: u64)
    requires
        off + n <= b@.len(),
        n <= 8,
    ensures
        r as nat == le_val(b@.subrange(off as int, off + n)),
{
    let blen: usize = b.len();
    let mut acc: u64 = 0;
    let mut j: usize = n;
    proof {
        assert(b@.subrange(off + n, off + n) =~= Seq::<u8>::empty());
    }
    while j > 0
        invariant
            j <= n,
            n <= 8,
            off + n <= blen,
            blen == b@.len(),
            acc as nat == le_val(b@.subrange(off + j, off + n)),
        decreases j,
    {
        proof {
            lemma_le_val_bound(b@.subrange(off + j, off + n));
            lemma_pow_increases(256, (n - j) as nat, 7);
            lemma_pow256_values();
        }
        j = j - 1;
        let byte = b[off + j];
        proof {
            assert(b@.subrange(off + j, off + n).drop_first() =~= b@.subrange(
                off + j + 1,
                off + n,
            ));
        }
        acc = byte as u64 + acc * 256;
    }
    acc
}

/// Reads the eight-byte little-endian integer at `off`.
pub fn read_u64(b: &Vec<u8>, off: usize) -> (r: u64)
    requires
        off + 8 <= b@.len(),
    ensures
        r as nat == le_val(b@.subrange(off as int, off + 8)),
{
    read_le_n(b, off, 8)
}

} // verus!
