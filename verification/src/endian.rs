//! Little-endian integers, as every numeric field of a log stores them.
use vstd::prelude::*;

verus! {

/// `256` raised to the power `n`: the number of values that `n` bytes hold.
pub open spec fn byte_pow(n: nat) -> nat
    decreases n,
{
    if n == 0 {
        1
    } else {
        256 * byte_pow((n - 1) as nat)
    }
}

/// The unsigned value of `bytes`, least significant byte first.
pub open spec fn le_uint(bytes: Seq<u8>) -> nat
    decreases bytes.len(),
{
    if bytes.len() == 0 {
        0
    } else {
        bytes[0] as nat + 256 * le_uint(bytes.drop_first())
    }
}

/// The two's-complement value of `bytes`, least significant byte first.
pub open spec fn le_int(bytes: Seq<u8>) -> int {
    let u = le_uint(bytes);
    let m = byte_pow(bytes.len());
    if 2 * u >= m {
        u - m
    } else {
        u as int
    }
}

/// The values of `byte_pow` for the widths that fields use.
pub proof fn lemma_byte_pow_values()
    ensures
        byte_pow(0) == 1,
        byte_pow(1) == 0x100,
        byte_pow(2) == 0x1_0000,
        byte_pow(3) == 0x100_0000,
        byte_pow(4) == 0x1_0000_0000,
        byte_pow(5) == 0x100_0000_0000,
        byte_pow(6) == 0x1_0000_0000_0000,
        byte_pow(7) == 0x100_0000_0000_0000,
        byte_pow(8) == 0x1_0000_0000_0000_0000,
{
    reveal_with_fuel(byte_pow, 9);
}

/// An unsigned little-endian value fits in its bytes.
pub proof fn lemma_le_uint_bound(bytes: Seq<u8>)
    ensures
        le_uint(bytes) < byte_pow(bytes.len()),
    decreases bytes.len(),
{
    if bytes.len() > 0 {
        lemma_le_uint_bound(bytes.drop_first());
    }
}

/// Reads `n` bytes of `bytes`, starting at `start`, as an unsigned little-endian integer.
pub fn read_le(bytes: &[u8], start: usize, n: usize) -> (r: u64)
    requires
        n <= 8,
        start + n <= bytes@.len(),
    ensures
        r as nat == le_uint(bytes@.subrange(start as int, start + n)),
{
    proof {
        lemma_byte_pow_values();
    }
    let mut acc: u64 = 0;
    let mut i: usize = n;
    while i > 0
        invariant
            n <= 8,
            start + n <= bytes.len(),
            i <= n,
            acc as nat == le_uint(bytes@.subrange(start + i, start + n)),
            acc < byte_pow((n - i) as nat),
            byte_pow(0) == 1,
            byte_pow(1) == 0x100,
            byte_pow(2) == 0x1_0000,
            byte_pow(3) == 0x100_0000,
            byte_pow(4) == 0x1_0000_0000,
            byte_pow(5) == 0x100_0000_0000,
            byte_pow(6) == 0x1_0000_0000_0000,
            byte_pow(7) == 0x100_0000_0000_0000,
            byte_pow(8) == 0x1_0000_0000_0000_0000,
        decreases i,
    {
        let b = bytes[start + i - 1];
        let ghost s = bytes@.subrange(start + i - 1, start + n);
        assert(s.drop_first() =~= bytes@.subrange(start + i, start + n));
        assert(byte_pow((n - i + 1) as nat) == 256 * byte_pow((n - i) as nat));
        acc = acc * 256 + b as u64;
        i = i - 1;
    }
    acc
}

/// Reads `n` bytes of `bytes`, starting at `start`, as a two's-complement little-endian integer.
pub fn read_le_signed(bytes: &[u8], start: usize, n: usize) -> (r: i64)
    requires
        1 <= n <= 8,
        start + n <= bytes@.len(),
    ensures
        r as int == le_int(bytes@.subrange(start as int, start + n)),
{
    let u = read_le(bytes, start, n);
    proof {
        lemma_byte_pow_values();
        lemma_le_uint_bound(bytes@.subrange(start as int, start + n));
    }
    if n == 8 {
        if u >= 0x8000_0000_0000_0000 {
            ((u as i128) - 0x1_0000_0000_0000_0000i128) as i64
        } else {
            u as i64
        }
    } else {
        let m: u64 = if n == 1 {
            0x100
        } else if n == 2 {
            0x1_0000
        } else if n == 3 {
            0x100_0000
        } else if n == 4 {
            0x1_0000_0000
        } else if n == 5 {
            0x100_0000_0000
        } else if n == 6 {
            0x1_0000_0000_0000
        } else {
            0x100_0000_0000_0000
        };
        if u >= m / 2 {
            (u as i64) - (m as i64)
        } else {
            u as i64
        }
    }
}

/// The `n` bytes that hold `v` least significant byte first.
pub open spec fn le_bytes(v: nat, n: nat) -> Seq<u8>
    decreases n,
{
    if n == 0 {
        Seq::empty()
    } else {
        seq![(v % 256) as u8] + le_bytes(v / 256, (n - 1) as nat)
    }
}

/// Reading an unsigned little-endian integer gives back the value that was written.
pub proof fn law_le_uint_reads_back(v: nat, n: nat)
    requires
        v < byte_pow(n),
    ensures
        le_bytes(v, n).len() == n,
        le_uint(le_bytes(v, n)) == v,
    decreases n,
{
    if n > 0 {
        let b = le_bytes(v, n);
        assert(b.drop_first() =~= le_bytes(v / 256, (n - 1) as nat));
        assert(v / 256 < byte_pow((n - 1) as nat)) by (nonlinear_arith)
            requires
                v < 256 * byte_pow((n - 1) as nat),
        ;
        law_le_uint_reads_back(v / 256, (n - 1) as nat);
        assert(v == v % 256 + 256 * (v / 256)) by (nonlinear_arith);
    } else {
        assert(v == 0);
    }
}

/// Reading a two's-complement little-endian integer gives back the value that
/// was written, for every value that `n` bytes hold.
pub proof fn law_le_int_reads_back(v: int, n: nat)
    requires
        n >= 1,
        -(byte_pow(n) as int) <= 2 * v < byte_pow(n),
    ensures
        le_int(le_bytes((if v < 0 { v + byte_pow(n) } else { v }) as nat, n)) == v,
{
    let u = if v < 0 {
        v + byte_pow(n)
    } else {
        v
    };
    law_le_uint_reads_back(u as nat, n);
}

/// The first byte is the least significant and the last the most: a byte
/// put after `bytes` adds its value times `256` to the power `bytes.len()`,
/// and a byte put before them adds itself to `256` times their value.
pub proof fn law_le_uint_byte_weights(bytes: Seq<u8>, x: u8)
    ensures
        le_uint(bytes.push(x)) == le_uint(bytes) + x as nat * byte_pow(bytes.len()),
        le_uint(seq![x] + bytes) == x as nat + 256 * le_uint(bytes),
    decreases bytes.len(),
{
    assert((seq![x] + bytes).drop_first() =~= bytes);
    if bytes.len() > 0 {
        let t = bytes.drop_first();
        law_le_uint_byte_weights(t, x);
        assert(bytes.push(x).drop_first() =~= t.push(x));
        assert(bytes.push(x)[0] == bytes[0]);
        assert(byte_pow(bytes.len()) == 256 * byte_pow(t.len()));
        assert(le_uint(bytes.push(x)) == bytes[0] as nat + 256 * le_uint(t.push(x)));
        assert(le_uint(bytes) == bytes[0] as nat + 256 * le_uint(t));
        assert(256 * (le_uint(t) + x as nat * byte_pow(t.len())) == 256 * le_uint(t) + x as nat * (256
            * byte_pow(t.len()))) by (nonlinear_arith);
    } else {
        assert(bytes.push(x).drop_first() =~= Seq::<u8>::empty());
        assert(le_uint(bytes.push(x)) == x as nat + 256 * le_uint(Seq::<u8>::empty()));
        assert(byte_pow(0) == 1);
    }
}

} // verus!
