//! Chunk codec: splits an item (a byte string of any length) into chunks of at
//! most 127 bytes and encodes each chunk, together with its ordinal position,
//! into a fixed-width 128-byte key for the compact tier.
//!
//! A key holds the chunk's payload, zero-padded on the right to 127 bytes, and
//! then one byte holding the chunk's ordinal modulo 256.  The padding and the
//! single ordinal byte are deliberate precision trade-offs: a short chunk
//! followed by zero bytes is indistinguishable from a longer chunk ending in
//! the same zero bytes at the same ordinal, and items of more than 256 chunks
//! wrap the ordinal.

use vstd::prelude::*;

verus! {

/// The decomposition of an item into its chunks, in order: repeatedly take up
/// to 127 bytes from the front; the final chunk may be shorter.  An empty item
/// has no chunks.
pub open spec fn chunks_of(s: Seq<u8>) -> Seq<Seq<u8>>
    decreases s.len(),
{
    if s.len() == 0 {
        seq![]
    } else if s.len() <= 127 {
        seq![s]
    } else {
        seq![s.subrange(0, 127)] + chunks_of(s.subrange(127, s.len() as int))
    }
}

/// Where chunk `i` of an item of length `len` ends (one past its last byte).
pub open spec fn chunk_end(len: int, i: int) -> int {
    if 127 * (i + 1) <= len {
        127 * (i + 1)
    } else {
        len
    }
}

/// The byte that records a chunk's ordinal: the ordinal modulo 256.
pub open spec fn ordinal_byte(i: int) -> u8 {
    (i % 256) as u8
}

/// The encoded key of one chunk at ordinal `i`: the payload, zero-padded on
/// the right to 127 bytes, followed by the ordinal byte.
pub open spec fn key_of(chunk: Seq<u8>, i: int) -> Seq<u8> {
    Seq::new(
        128,
        |j: int|
            if j < chunk.len() {
                chunk[j]
            } else if j < 127 {
                0u8
            } else {
                ordinal_byte(i)
            },
    )
}

/// The full key sequence of an item: one key per chunk, in ascending ordinal
/// order.
pub open spec fn keys_of(s: Seq<u8>) -> Seq<Seq<u8>> {
    Seq::new(chunks_of(s).len(), |i: int| key_of(chunks_of(s)[i], i))
}

/// Chunk `i` of `s` exists exactly when `127 * i < s.len()`, and is then the
/// bytes from `127 * i` up to `chunk_end`.
pub proof fn lemma_chunk_at(s: Seq<u8>, i: int)
    requires
        0 <= i,
    ensures
        i < chunks_of(s).len() <==> 127 * i < s.len(),
        i < chunks_of(s).len() ==> chunks_of(s)[i] == s.subrange(127 * i, chunk_end(s.len() as int, i)),
    decreases s.len(),
{
    if s.len() == 0 {
    } else if s.len() <= 127 {
        if i == 0 {
            assert(s.subrange(0, chunk_end(s.len() as int, 0)) =~= s);
        }
    } else {
        let tail = s.subrange(127, s.len() as int);
        if i == 0 {
            assert(chunks_of(s)[0] == s.subrange(0, 127));
        } else {
            lemma_chunk_at(tail, i - 1);
            if i < chunks_of(s).len() {
                assert(chunks_of(s)[i] == chunks_of(tail)[i - 1]);
                assert(tail.subrange(127 * (i - 1), chunk_end(tail.len() as int, i - 1)) =~= s.subrange(
                    127 * i,
                    chunk_end(s.len() as int, i),
                ));
            }
        }
    }
}

/// Computes the encoded key sequence of an item: one 128-byte key per chunk.
pub fn item_to_keys(item: &[u8]) -> (keys: Vec<Vec<u8>>)
    ensures
        keys@.len() == keys_of(item@).len(),
        forall|i: int| 0 <= i < keys@.len() ==> keys@[i]@ == keys_of(item@)[i],
{
    let n = item.len();
    let mut keys: Vec<Vec<u8>> = Vec::new();
    let mut pos: usize = 0;
    let mut ord: usize = 0;
    while pos < n
        invariant
            n == item@.len(),
            keys@.len() == ord,
            forall|i: int| 0 <= i < ord ==> keys@[i]@ == keys_of(item@)[i],
            ord <= chunks_of(item@).len(),
            if ord < chunks_of(item@).len() {
                pos == 127 * ord
            } else {
                pos == n
            },
        decreases n - pos,
    {
        proof {
            lemma_chunk_at(item@, ord as int);
        }
        let end = if n - pos > 127 {
            pos + 127
        } else {
            n
        };
        let clen = end - pos;
        let mut key: Vec<u8> = Vec::new();
        let mut j: usize = 0;
        while j < clen
            invariant
                j <= clen,
                clen <= 127,
                pos + clen <= item@.len(),
                pos + clen <= usize::MAX,
                key@.len() == j,
                forall|jj: int| 0 <= jj < j ==> key@[jj] == item@[pos + jj],
            decreases clen - j,
        {
            key.push(item[pos + j]);
            j = j + 1;
        }
        while key.len() < 127
            invariant
                clen <= key@.len() <= 127,
                forall|jj: int| 0 <= jj < clen ==> key@[jj] == item@[pos + jj],
                forall|jj: int| clen <= jj < key@.len() ==> key@[jj] == 0u8,
            decreases 127 - key@.len(),
        {
            key.push(0u8);
        }
        key.push((ord % 256) as u8);
        proof {
            let chunk = chunks_of(item@)[ord as int];
            assert(chunk =~= item@.subrange(127 * ord, chunk_end(item@.len() as int, ord as int)));
            assert(key@ =~= key_of(chunk, ord as int));
        }
        keys.push(key);
        pos = end;
        ord = ord + 1;
        proof {
            lemma_chunk_at(item@, ord as int);
        }
    }
    proof {
        lemma_chunk_at(item@, ord as int);
    }
    keys
}

} // verus!
