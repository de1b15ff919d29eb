//! Big-endian byte encodings of machine words, the ground layer under the
//! wire codecs: spec-level encodings, executable readers and writers proved
//! against them, and injectivity lemmas.

use vstd::prelude::*;

verus! {

/// The eight big-endian bytes of a 64-bit word.
pub open spec fn be64(x: u64) -> Seq<u8> {
    seq![
        (x >> 56) as u8,
        (x >> 48) as u8,
        (x >> 40) as u8,
        (x >> 32) as u8,
        (x >> 24) as u8,
        (x >> 16) as u8,
        (x >> 8) as u8,
        x as u8,
    ]
}

/// The four big-endian bytes of a 32-bit word.
pub open spec fn be32(x: u32) -> Seq<u8> {
    seq![(x >> 24) as u8, (x >> 16) as u8, (x >> 8) as u8, x as u8]
}

/// The word whose big-endian bytes are the given eight.
pub open spec fn word64(b0: u8, b1: u8, b2: u8, b3: u8, b4: u8, b5: u8, b6: u8, b7: u8) -> u64 {
    ((b0 as u64) << 56) | ((b1 as u64) << 48) | ((b2 as u64) << 40) | ((b3 as u64) << 32)
        | ((b4 as u64) << 24) | ((b5 as u64) << 16) | ((b6 as u64) << 8) | (b7 as u64)
}

/// The word whose big-endian bytes are the given four.
pub open spec fn word32(b0: u8, b1: u8, b2: u8, b3: u8) -> u32 {
    ((b0 as u32) << 24) | ((b1 as u32) << 16) | ((b2 as u32) << 8) | (b3 as u32)
}

/// Reading eight bytes back as a word inverts the encoding.
pub proof fn lemma_be64_of_bytes(b0: u8, b1: u8, b2: u8, b3: u8, b4: u8, b5: u8, b6: u8, b7: u8)
    ensures
        be64(word64(b0, b1, b2, b3, b4, b5, b6, b7)) == seq![b0, b1, b2, b3, b4, b5, b6, b7],
{
    let x = word64(b0, b1, b2, b3, b4, b5, b6, b7);
    assert((x >> 56) as u8 == b0 && (x >> 48) as u8 == b1 && (x >> 40) as u8 == b2
        && (x >> 32) as u8 == b3 && (x >> 24) as u8 == b4 && (x >> 16) as u8 == b5
        && (x >> 8) as u8 == b6 && x as u8 == b7) by (bit_vector)
        requires
            x == word64(b0, b1, b2, b3, b4, b5, b6, b7),
    ;
    assert(be64(x) =~= seq![b0, b1, b2, b3, b4, b5, b6, b7]);
}

/// Two words with the same big-endian bytes are the same word.
pub proof fn lemma_be64_injective(x: u64, y: u64)
    requires
        be64(x) == be64(y),
    ensures
        x == y,
{
    assert(be64(x)[0] == be64(y)[0] && be64(x)[1] == be64(y)[1] && be64(x)[2] == be64(y)[2]
        && be64(x)[3] == be64(y)[3] && be64(x)[4] == be64(y)[4] && be64(x)[5] == be64(y)[5]
        && be64(x)[6] == be64(y)[6] && be64(x)[7] == be64(y)[7]);
    assert(x == y) by (bit_vector)
        requires
            (x >> 56) as u8 == (y >> 56) as u8,
            (x >> 48) as u8 == (y >> 48) as u8,
            (x >> 40) as u8 == (y >> 40) as u8,
            (x >> 32) as u8 == (y >> 32) as u8,
            (x >> 24) as u8 == (y >> 24) as u8,
            (x >> 16) as u8 == (y >> 16) as u8,
            (x >> 8) as u8 == (y >> 8) as u8,
            x as u8 == y as u8,
    ;
}

/// Reading four bytes back as a word inverts the encoding.
pub proof fn lemma_be32_of_bytes(b0: u8, b1: u8, b2: u8, b3: u8)
    ensures
        be32(word32(b0, b1, b2, b3)) == seq![b0, b1, b2, b3],
{
    let x = word32(b0, b1, b2, b3);
    assert((x >> 24) as u8 == b0 && (x >> 16) as u8 == b1 && (x >> 8) as u8 == b2
        && x as u8 == b3) by (bit_vector)
        requires
            x == word32(b0, b1, b2, b3),
    ;
    assert(be32(x) =~= seq![b0, b1, b2, b3]);
}

/// Two words with the same big-endian bytes are the same word.
pub proof fn lemma_be32_injective(x: u32, y: u32)
    requires
        be32(x) == be32(y),
    ensures
        x == y,
{
    assert(be32(x)[0] == be32(y)[0] && be32(x)[1] == be32(y)[1] && be32(x)[2] == be32(y)[2]
        && be32(x)[3] == be32(y)[3]);
    assert(x == y) by (bit_vector)
        requires
            (x >> 24) as u8 == (y >> 24) as u8,
            (x >> 16) as u8 == (y >> 16) as u8,
            (x >> 8) as u8 == (y >> 8) as u8,
            x as u8 == y as u8,
    ;
}

/// Append the big-endian bytes of a 64-bit word.
pub fn push_be64(out: &mut Vec<u8>, x: u64)
    ensures
        final(out)@ == old(out)@ + be64(x),
{
    out.push((x >> 56) as u8);
    out.push((x >> 48) as u8);
    out.push((x >> 40) as u8);
    out.push((x >> 32) as u8);
    out.push((x >> 24) as u8);
    out.push((x >> 16) as u8);
    out.push((x >> 8) as u8);
    out.push(x as u8);
    proof {
        assert(out@ =~= old(out)@ + be64(x));
    }
}

/// Append the big-endian bytes of a 32-bit word.
pub fn push_be32(out: &mut Vec<u8>, x: u32)
    ensures
        final(out)@ == old(out)@ + be32(x),
{
    out.push((x >> 24) as u8);
    out.push((x >> 16) as u8);
    out.push((x >> 8) as u8);
    out.push(x as u8);
    proof {
        assert(out@ =~= old(out)@ + be32(x));
    }
}

/// Read the 64-bit word whose big-endian bytes start at position `i`.
pub fn read_be64(b: &Vec<u8>, i: usize) -> (x: u64)
    requires
        i + 8 <= b@.len(),
    ensures
        be64(x) == b@.subrange(i as int, i as int + 8),
{
    let n: usize = b.len();
    let x: u64 = ((b[i] as u64) << 56) | ((b[i + 1] as u64) << 48) | ((b[i + 2] as u64) << 40)
        | ((b[i + 3] as u64) << 32) | ((b[i + 4] as u64) << 24) | ((b[i + 5] as u64) << 16)
        | ((b[i + 6] as u64) << 8) | (b[i + 7] as u64);
    proof {
        lemma_be64_of_bytes(
            b@[i as int],
            b@[i + 1],
            b@[i + 2],
            b@[i + 3],
            b@[i + 4],
            b@[i + 5],
            b@[i + 6],
            b@[i + 7],
        );
        assert(b@.subrange(i as int, i as int + 8) =~= seq![
            b@[i as int],
            b@[i + 1],
            b@[i + 2],
            b@[i + 3],
            b@[i + 4],
            b@[i + 5],
            b@[i + 6],
            b@[i + 7],
        ]);
    }
    x
}

/// Read the 32-bit word whose big-endian bytes start at position `i`.
pub fn read_be32(b: &Vec<u8>, i: usize) -> (x: u32)
    requires
        i + 4 <= b@.len(),
    ensures
        be32(x) == b@.subrange(i as int, i as int + 4),
{
    let n: usize = b.len();
    let x: u32 = ((b[i] as u32) << 24) | ((b[i + 1] as u32) << 16) | ((b[i + 2] as u32) << 8)
        | (b[i + 3] as u32);
    proof {
        lemma_be32_of_bytes(b@[i as int], b@[i + 1], b@[i + 2], b@[i + 3]);
        assert(b@.subrange(i as int, i as int + 4) =~= seq![
            b@[i as int],
            b@[i + 1],
            b@[i + 2],
            b@[i + 3],
        ]);
    }
    x
}

} // verus!
