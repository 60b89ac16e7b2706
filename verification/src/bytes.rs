use vstd::prelude::*;

verus! {

/// The two bytes of `v` in big-endian order.
pub open spec fn be16(v: u16) -> Seq<u8> {
    seq![((v >> 8) & 0xff) as u8, (v & 0xff) as u8]
}

/// The four bytes of `v` in big-endian order.
pub open spec fn be32(v: u32) -> Seq<u8> {
    seq![
        ((v >> 24) & 0xff) as u8,
        ((v >> 16) & 0xff) as u8,
        ((v >> 8) & 0xff) as u8,
        (v & 0xff) as u8,
    ]
}

/// The value read back from four big-endian bytes.
pub open spec fn be32_val(s: Seq<u8>) -> u32 {
    (((s[0] as u32) << 24) | ((s[1] as u32) << 16) | ((s[2] as u32) << 8) | (s[3] as u32)) as u32
}

/// The value read back from two big-endian bytes.
pub open spec fn be16_val(s: Seq<u8>) -> u16 {
    (((s[0] as u16) << 8) | (s[1] as u16)) as u16
}

/// `n` zero bytes.
pub open spec fn zero_seq(n: nat) -> Seq<u8> {
    Seq::new(n, |i: int| 0u8)
}

/// The decimal ASCII digits of `n`, most significant first, no sign and no
/// leading zeros (a single `0` for zero).
pub open spec fn dec_bytes(n: nat) -> Seq<u8>
    decreases n,
{
    if n < 10 {
        seq![(48 + n) as u8]
    } else {
        dec_bytes(n / 10) + seq![(48 + n % 10) as u8]
    }
}

/// The continuation bytes of the variable-width integer encoding: each
/// carries seven value bits and the high bit set.
pub open spec fn varint_cont(m: nat) -> Seq<u8>
    decreases m,
{
    if m < 128 {
        seq![(128 + m) as u8]
    } else {
        varint_cont((m / 128 - 1) as nat) + seq![(128 + m % 128) as u8]
    }
}

/// The variable-width encoding of `n` used for prefix-strip counts: the last
/// byte carries the low seven bits with the high bit clear; each earlier
/// byte carries seven more bits, offset by one, with the high bit set.
pub open spec fn varint_bytes(n: nat) -> Seq<u8> {
    if n < 128 {
        seq![n as u8]
    } else {
        varint_cont((n / 128 - 1) as nat) + seq![(n % 128) as u8]
    }
}

fn push_varint_cont(out: &mut Vec<u8>, m: u64)
    ensures
        final(out)@ == old(out)@ + varint_cont(m as nat),
    decreases m,
{
    if m < 128 {
        out.push(128u8 + (m as u8));
        proof {
            assert(out@ =~= old(out)@ + varint_cont(m as nat));
        }
    } else {
        push_varint_cont(out, m / 128 - 1);
        out.push(128u8 + ((m % 128) as u8));
        proof {
            assert(out@ =~= old(out)@ + varint_cont(m as nat));
        }
    }
}

/// Appends the variable-width encoding of `n` to `out`.
pub fn push_varint(out: &mut Vec<u8>, n: u64)
    ensures
        final(out)@ == old(out)@ + varint_bytes(n as nat),
{
    if n < 128 {
        out.push(n as u8);
        proof {
            assert(out@ =~= old(out)@ + varint_bytes(n as nat));
        }
    } else {
        push_varint_cont(out, n / 128 - 1);
        out.push((n % 128) as u8);
        proof {
            assert(out@ =~= old(out)@ + varint_bytes(n as nat));
        }
    }
}

pub fn push_be16(out: &mut Vec<u8>, v: u16)
    ensures
        final(out)@ == old(out)@ + be16(v),
{
    out.push(((v >> 8) & 0xff) as u8);
    out.push((v & 0xff) as u8);
    proof {
        assert(out@ =~= old(out)@ + be16(v));
    }
}

pub fn push_be32(out: &mut Vec<u8>, v: u32)
    ensures
        final(out)@ == old(out)@ + be32(v),
{
    out.push(((v >> 24) & 0xff) as u8);
    out.push(((v >> 16) & 0xff) as u8);
    out.push(((v >> 8) & 0xff) as u8);
    out.push((v & 0xff) as u8);
    proof {
        assert(out@ =~= old(out)@ + be32(v));
    }
}

/// Appends `src[from..to]` to `out`.
pub fn push_bytes(out: &mut Vec<u8>, src: &Vec<u8>, from: usize, to: usize)
    requires
        from <= to <= src@.len(),
    ensures
        final(out)@ == old(out)@ + src@.subrange(from as int, to as int),
{
    let ghost orig: Seq<u8> = out@;
    let mut i: usize = from;
    while i < to
        invariant
            from <= i <= to <= src@.len(),
            out@ == orig + src@.subrange(from as int, i as int),
        decreases to - i,
    {
        out.push(src[i]);
        i = i + 1;
        proof {
            assert(src@.subrange(from as int, i as int) =~= src@.subrange(
                from as int,
                i - 1,
            ).push(src@[i - 1]));
            assert(out@ =~= orig + src@.subrange(from as int, i as int));
        }
    }
    proof {
        assert(out@ =~= orig + src@.subrange(from as int, to as int));
    }
}

/// A copy of `src[from..to]` as a fresh vector.
pub fn copy_range(src: &Vec<u8>, from: usize, to: usize) -> (r: Vec<u8>)
    requires
        from <= to <= src@.len(),
    ensures
        r@ == src@.subrange(from as int, to as int),
{
    let mut r: Vec<u8> = Vec::new();
    push_bytes(&mut r, src, from, to);
    proof {
        assert(r@ =~= src@.subrange(from as int, to as int));
    }
    r
}

/// Appends `n` zero bytes to `out`.
pub fn push_zeros(out: &mut Vec<u8>, n: usize)
    ensures
        final(out)@ == old(out)@ + zero_seq(n as nat),
{
    let ghost orig: Seq<u8> = out@;
    let mut i: usize = 0;
    while i < n
        invariant
            i <= n,
            out@ == orig + zero_seq(i as nat),
        decreases n - i,
    {
        out.push(0u8);
        i = i + 1;
        proof {
            assert(out@ =~= orig + zero_seq(i as nat));
        }
    }
}

/// Appends the decimal ASCII digits of `n` to `out`.
pub fn push_dec(out: &mut Vec<u8>, n: u32)
    ensures
        final(out)@ == old(out)@ + dec_bytes(n as nat),
    decreases n,
{
    if n < 10 {
        out.push(48 + (n as u8));
        proof {
            assert(out@ =~= old(out)@ + dec_bytes(n as nat));
        }
    } else {
        push_dec(out, n / 10);
        out.push(48 + ((n % 10) as u8));
        proof {
            assert(out@ =~= old(out)@ + dec_bytes(n as nat));
        }
    }
}

} // verus!
