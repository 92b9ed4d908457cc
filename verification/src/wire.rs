use vstd::prelude::*;

verus! {

// ---------------------------------------------------------------------------
// The wire format, as mathematics.
//
// The backend speaks the compact binary tuple encoding of MessagePack, in the
// canonical (shortest-header) form its reference writers emit: strings are a
// header followed by their bytes, arrays a header followed by the elements,
// a 64-bit float is a marker followed by its bit pattern in big-endian order,
// and the empty options tuple is the nil marker.
// ---------------------------------------------------------------------------

/// Big-endian bytes of a 16-bit length.
pub open spec fn be16(n: u16) -> Seq<u8> {
    seq![(n >> 8) as u8, (n & 0xff) as u8]
}

/// Big-endian bytes of a 32-bit length.
pub open spec fn be32(n: u32) -> Seq<u8> {
    seq![
        (n >> 24) as u8,
        ((n >> 16) & 0xff) as u8,
        ((n >> 8) & 0xff) as u8,
        (n & 0xff) as u8,
    ]
}

/// Big-endian bytes of a 64-bit value.
pub open spec fn be64(n: u64) -> Seq<u8> {
    seq![
        (n >> 56) as u8,
        ((n >> 48) & 0xff) as u8,
        ((n >> 40) & 0xff) as u8,
        ((n >> 32) & 0xff) as u8,
        ((n >> 24) & 0xff) as u8,
        ((n >> 16) & 0xff) as u8,
        ((n >> 8) & 0xff) as u8,
        (n & 0xff) as u8,
    ]
}

/// A string may carry at most a 32-bit length on the wire.
pub open spec fn valid_str(s: Seq<u8>) -> bool {
    s.len() < 0x1_0000_0000
}

/// An array may carry at most a 32-bit element count on the wire.
pub open spec fn valid_count(n: int) -> bool {
    0 <= n < 0x1_0000_0000
}

/// The canonical string header for a payload of `len` bytes.
pub open spec fn str_hdr(len: int) -> Seq<u8> {
    if len < 32 {
        seq![(0xa0 + len) as u8]
    } else if len < 256 {
        seq![0xd9u8, len as u8]
    } else if len < 65536 {
        seq![0xdau8] + be16(len as u16)
    } else {
        seq![0xdbu8] + be32(len as u32)
    }
}

/// The encoding of a string: canonical header, then the bytes themselves.
pub open spec fn str_enc(s: Seq<u8>) -> Seq<u8> {
    str_hdr(s.len() as int) + s
}

/// The canonical array header for `n` elements.
pub open spec fn array_hdr(n: int) -> Seq<u8> {
    if n < 16 {
        seq![(0x90 + n) as u8]
    } else if n < 65536 {
        seq![0xdcu8] + be16(n as u16)
    } else {
        seq![0xddu8] + be32(n as u32)
    }
}

/// The encoding of a 64-bit float, given as its bit pattern.
pub open spec fn float_enc(bits: u64) -> Seq<u8> {
    seq![0xcbu8] + be64(bits)
}

/// The encoding of nil, which carries the empty options tuple.
pub open spec fn nil_enc() -> Seq<u8> {
    seq![0xc0u8]
}

// ---------------------------------------------------------------------------
// Splitting and joining byte ranges.
// ---------------------------------------------------------------------------

/// A range of a byte sequence is the concatenation of its two halves.
pub proof fn lemma_join(b: Seq<u8>, p0: int, p1: int, p2: int)
    requires
        0 <= p0 <= p1 <= p2 <= b.len(),
    ensures
        b.subrange(p0, p2) == b.subrange(p0, p1) + b.subrange(p1, p2),
{
    assert(b.subrange(p0, p2) =~= b.subrange(p0, p1) + b.subrange(p1, p2));
}

/// If a range of a byte sequence equals `x + y`, the range splits into a
/// front part equal to `x` and a back part equal to `y`.
pub proof fn lemma_split(b: Seq<u8>, p0: int, x: Seq<u8>, y: Seq<u8>)
    requires
        0 <= p0,
        p0 + x.len() + y.len() <= b.len(),
        b.subrange(p0, p0 + x.len() + y.len()) == x + y,
    ensures
        b.subrange(p0, p0 + x.len()) == x,
        b.subrange(p0 + x.len(), p0 + x.len() + y.len()) == y,
{
    let whole = b.subrange(p0, p0 + x.len() + y.len());
    assert forall|i: int| 0 <= i < x.len() implies b.subrange(p0, p0 + x.len())[i] == x[i] by {
        assert(whole[i] == (x + y)[i]);
    }
    assert(b.subrange(p0, p0 + x.len()) =~= x);
    assert forall|i: int| 0 <= i < y.len() implies b.subrange(
        p0 + x.len(),
        p0 + x.len() + y.len(),
    )[i] == y[i] by {
        assert(whole[x.len() + i] == (x + y)[x.len() + i]);
    }
    assert(b.subrange(p0 + x.len(), p0 + x.len() + y.len()) =~= y);
}

// ---------------------------------------------------------------------------
// Big-endian lengths: writing, reading, and injectivity.
// ---------------------------------------------------------------------------

pub proof fn lemma_be16_inj(a: u16, b: u16)
    requires
        be16(a) == be16(b),
    ensures
        a == b,
{
    assert(be16(a)[0] == be16(b)[0]);
    assert(be16(a)[1] == be16(b)[1]);
    assert(a >> 8 < 256 && b >> 8 < 256 && a & 0xff < 256 && b & 0xff < 256) by (bit_vector);
    assert(a == b) by (bit_vector)
        requires
            a >> 8 == b >> 8,
            a & 0xff == b & 0xff,
    ;
}

pub proof fn lemma_be32_inj(a: u32, b: u32)
    requires
        be32(a) == be32(b),
    ensures
        a == b,
{
    assert(be32(a)[0] == be32(b)[0]);
    assert(be32(a)[1] == be32(b)[1]);
    assert(be32(a)[2] == be32(b)[2]);
    assert(be32(a)[3] == be32(b)[3]);
    assert(a >> 24 < 256 && b >> 24 < 256 && (a >> 16) & 0xff < 256 && (b >> 16) & 0xff < 256
        && (a >> 8) & 0xff < 256 && (b >> 8) & 0xff < 256 && a & 0xff < 256 && b & 0xff
        < 256) by (bit_vector);
    assert(a == b) by (bit_vector)
        requires
            a >> 24 == b >> 24,
            (a >> 16) & 0xff == (b >> 16) & 0xff,
            (a >> 8) & 0xff == (b >> 8) & 0xff,
            a & 0xff == b & 0xff,
    ;
}

pub proof fn lemma_be64_inj(a: u64, b: u64)
    requires
        be64(a) == be64(b),
    ensures
        a == b,
{
    assert(be64(a)[0] == be64(b)[0]);
    assert(be64(a)[1] == be64(b)[1]);
    assert(be64(a)[2] == be64(b)[2]);
    assert(be64(a)[3] == be64(b)[3]);
    assert(be64(a)[4] == be64(b)[4]);
    assert(be64(a)[5] == be64(b)[5]);
    assert(be64(a)[6] == be64(b)[6]);
    assert(be64(a)[7] == be64(b)[7]);
    assert(a >> 56 < 256 && b >> 56 < 256 && (a >> 48) & 0xff < 256 && (b >> 48) & 0xff < 256
        && (a >> 40) & 0xff < 256 && (b >> 40) & 0xff < 256 && (a >> 32) & 0xff < 256 && (b >> 32)
        & 0xff < 256 && (a >> 24) & 0xff < 256 && (b >> 24) & 0xff < 256 && (a >> 16) & 0xff < 256
        && (b >> 16) & 0xff < 256 && (a >> 8) & 0xff < 256 && (b >> 8) & 0xff < 256 && a & 0xff
        < 256 && b & 0xff < 256) by (bit_vector);
    assert(a == b) by (bit_vector)
        requires
            a >> 56 == b >> 56,
            (a >> 48) & 0xff == (b >> 48) & 0xff,
            (a >> 40) & 0xff == (b >> 40) & 0xff,
            (a >> 32) & 0xff == (b >> 32) & 0xff,
            (a >> 24) & 0xff == (b >> 24) & 0xff,
            (a >> 16) & 0xff == (b >> 16) & 0xff,
            (a >> 8) & 0xff == (b >> 8) & 0xff,
            a & 0xff == b & 0xff,
    ;
}

pub fn push_be16(out: &mut Vec<u8>, n: u16)
    ensures
        final(out)@ == old(out)@ + be16(n),
{
    proof {
        assert(n >> 8 < 256 && n & 0xff < 256) by (bit_vector);
    }
    out.push((n >> 8) as u8);
    out.push((n & 0xff) as u8);
    assert(out@ =~= old(out)@ + be16(n));
}

pub fn push_be32(out: &mut Vec<u8>, n: u32)
    ensures
        final(out)@ == old(out)@ + be32(n),
{
    proof {
        assert(n >> 24 < 256 && (n >> 16) & 0xff < 256 && (n >> 8) & 0xff < 256 && n & 0xff
            < 256) by (bit_vector);
    }
    out.push((n >> 24) as u8);
    out.push(((n >> 16) & 0xff) as u8);
    out.push(((n >> 8) & 0xff) as u8);
    out.push((n & 0xff) as u8);
    assert(out@ =~= old(out)@ + be32(n));
}

pub fn push_be64(out: &mut Vec<u8>, n: u64)
    ensures
        final(out)@ == old(out)@ + be64(n),
{
    proof {
        assert(n >> 56 < 256 && (n >> 48) & 0xff < 256 && (n >> 40) & 0xff < 256 && (n >> 32)
            & 0xff < 256 && (n >> 24) & 0xff < 256 && (n >> 16) & 0xff < 256 && (n >> 8) & 0xff
            < 256 && n & 0xff < 256) by (bit_vector);
    }
    out.push((n >> 56) as u8);
    out.push(((n >> 48) & 0xff) as u8);
    out.push(((n >> 40) & 0xff) as u8);
    out.push(((n >> 32) & 0xff) as u8);
    out.push(((n >> 24) & 0xff) as u8);
    out.push(((n >> 16) & 0xff) as u8);
    out.push(((n >> 8) & 0xff) as u8);
    out.push((n & 0xff) as u8);
    assert(out@ =~= old(out)@ + be64(n));
}

pub fn read_be16(bytes: &Vec<u8>, pos: usize) -> (n: u16)
    requires
        pos + 2 <= bytes@.len(),
    ensures
        be16(n) == bytes@.subrange(pos as int, pos as int + 2),
{
    let n_bytes = bytes.len();
    assert(pos + 2 <= n_bytes);
    let x0: u16 = bytes[pos] as u16;
    let x1: u16 = bytes[pos + 1] as u16;
    let n: u16 = (x0 << 8) | x1;
    proof {
        assert(n >> 8 == x0 && n & 0xff == x1) by (bit_vector)
            requires
                n == (x0 << 8) | x1,
                x0 < 256,
                x1 < 256,
        ;
        assert(be16(n) =~= bytes@.subrange(pos as int, pos as int + 2));
    }
    n
}

pub fn read_be32(bytes: &Vec<u8>, pos: usize) -> (n: u32)
    requires
        pos + 4 <= bytes@.len(),
    ensures
        be32(n) == bytes@.subrange(pos as int, pos as int + 4),
{
    let n_bytes = bytes.len();
    assert(pos + 4 <= n_bytes);
    let x0: u32 = bytes[pos] as u32;
    let x1: u32 = bytes[pos + 1] as u32;
    let x2: u32 = bytes[pos + 2] as u32;
    let x3: u32 = bytes[pos + 3] as u32;
    let n: u32 = (x0 << 24) | (x1 << 16) | (x2 << 8) | x3;
    proof {
        assert(n >> 24 == x0 && (n >> 16) & 0xff == x1 && (n >> 8) & 0xff == x2 && n & 0xff
            == x3) by (bit_vector)
            requires
                n == (x0 << 24) | (x1 << 16) | (x2 << 8) | x3,
                x0 < 256,
                x1 < 256,
                x2 < 256,
                x3 < 256,
        ;
        assert(be32(n) =~= bytes@.subrange(pos as int, pos as int + 4));
    }
    n
}

pub fn read_be64(bytes: &Vec<u8>, pos: usize) -> (n: u64)
    requires
        pos + 8 <= bytes@.len(),
    ensures
        be64(n) == bytes@.subrange(pos as int, pos as int + 8),
{
    let n_bytes = bytes.len();
    assert(pos + 8 <= n_bytes);
    let x0: u64 = bytes[pos] as u64;
    let x1: u64 = bytes[pos + 1] as u64;
    let x2: u64 = bytes[pos + 2] as u64;
    let x3: u64 = bytes[pos + 3] as u64;
    let x4: u64 = bytes[pos + 4] as u64;
    let x5: u64 = bytes[pos + 5] as u64;
    let x6: u64 = bytes[pos + 6] as u64;
    let x7: u64 = bytes[pos + 7] as u64;
    let n: u64 = (x0 << 56) | (x1 << 48) | (x2 << 40) | (x3 << 32) | (x4 << 24) | (x5 << 16) | (x6
        << 8) | x7;
    proof {
        assert(n >> 56 == x0 && (n >> 48) & 0xff == x1 && (n >> 40) & 0xff == x2 && (n >> 32) & 0xff
            == x3 && (n >> 24) & 0xff == x4 && (n >> 16) & 0xff == x5 && (n >> 8) & 0xff == x6 && n
            & 0xff == x7) by (bit_vector)
            requires
                n == (x0 << 56) | (x1 << 48) | (x2 << 40) | (x3 << 32) | (x4 << 24) | (x5 << 16) | (
                x6 << 8) | x7,
                x0 < 256,
                x1 < 256,
                x2 < 256,
                x3 < 256,
                x4 < 256,
                x5 < 256,
                x6 < 256,
                x7 < 256,
        ;
        assert(be64(n) =~= bytes@.subrange(pos as int, pos as int + 8));
    }
    n
}

// ---------------------------------------------------------------------------
// Writers for the wire primitives.
// ---------------------------------------------------------------------------

/// Appends the canonical encoding of a string.
pub fn push_str(out: &mut Vec<u8>, s: &Vec<u8>)
    requires
        valid_str(s@),
    ensures
        final(out)@ == old(out)@ + str_enc(s@),
{
    let len = s.len();
    if len < 32 {
        out.push((0xa0 + len) as u8);
    } else if len < 256 {
        out.push(0xd9);
        out.push(len as u8);
    } else if len < 65536 {
        out.push(0xda);
        push_be16(out, len as u16);
    } else {
        out.push(0xdb);
        push_be32(out, len as u32);
    }
    assert(out@ =~= old(out)@ + str_hdr(s@.len() as int));
    let ghost mid = out@;
    let mut i: usize = 0;
    while i < s.len()
        invariant
            i <= s@.len(),
            out@ == mid + s@.subrange(0, i as int),
        decreases s@.len() - i,
    {
        out.push(s[i]);
        i += 1;
        assert(out@ =~= mid + s@.subrange(0, i as int));
    }
    assert(s@.subrange(0, s@.len() as int) =~= s@);
    assert(out@ =~= old(out)@ + str_enc(s@));
}

/// Appends the canonical array header for `n` elements.
pub fn push_array_hdr(out: &mut Vec<u8>, n: usize)
    requires
        valid_count(n as int),
    ensures
        final(out)@ == old(out)@ + array_hdr(n as int),
{
    if n < 16 {
        out.push((0x90 + n) as u8);
    } else if n < 65536 {
        out.push(0xdc);
        push_be16(out, n as u16);
    } else {
        out.push(0xdd);
        push_be32(out, n as u32);
    }
    assert(out@ =~= old(out)@ + array_hdr(n as int));
}

/// Appends the encoding of a 64-bit float given by its bit pattern.
pub fn push_float(out: &mut Vec<u8>, bits: u64)
    ensures
        final(out)@ == old(out)@ + float_enc(bits),
{
    out.push(0xcb);
    push_be64(out, bits);
    assert(out@ =~= old(out)@ + float_enc(bits));
}

/// Appends the nil marker.
pub fn push_nil(out: &mut Vec<u8>)
    ensures
        final(out)@ == old(out)@ + nil_enc(),
{
    out.push(0xc0);
    assert(out@ =~= old(out)@ + nil_enc());
}

} // verus!
