//! Machine words of the inferior and the bytes they cover.
//!
//! ptrace moves memory one `c_long` at a time. On the supported targets
//! (x86_64 and aarch64 Linux) that word is eight bytes, stored
//! little-endian, so the bytes of a word are its little-endian encoding.
use vstd::prelude::*;
use vstd::bytes::*;

verus! {

/// Size in bytes of the word that one ptrace peek or poke transfers.
pub const WORD_SIZE: usize = 8;

/// The bytes, in address order, that a word covers in memory.
pub open spec fn word_bytes(w: u64) -> Seq<u8> {
    spec_u64_to_le_bytes(w)
}

/// The word whose bytes are `b` (eight of them).
pub open spec fn word_of(b: Seq<u8>) -> u64 {
    spec_u64_from_le_bytes(b)
}

/// A word encodes exactly eight bytes, and decoding undoes encoding both ways.
pub proof fn lemma_word_bytes_roundtrip()
    ensures
        forall|w: u64| #[trigger] word_bytes(w).len() == 8,
        forall|w: u64| word_of(#[trigger] word_bytes(w)) == w,
        forall|b: Seq<u8>| b.len() == 8 ==> #[trigger] word_bytes(word_of(b)) == b,
{
    lemma_auto_spec_u64_to_from_le_bytes();
}

/// The word made of the eight bytes `src[at..at + 8]`.
pub fn word_from_bytes(src: &[u8], at: usize) -> (w: u64)
    requires
        at + WORD_SIZE <= src@.len(),
    ensures
        word_bytes(w) == src@.subrange(at as int, at + WORD_SIZE),
{
    let len = src.len();
    let mut buf: Vec<u8> = Vec::new();
    let mut i: usize = 0;
    while i < WORD_SIZE
        invariant
            i <= WORD_SIZE,
            at + WORD_SIZE <= src@.len(),
            src@.len() == len,
            buf@ == src@.subrange(at as int, at + i),
        decreases WORD_SIZE - i,
    {
        buf.push(src[at + i]);
        i = i + 1;
        assert(buf@ =~= src@.subrange(at as int, at + i));
    }
    let w = u64_from_le_bytes(buf.as_slice());
    proof {
        lemma_auto_spec_u64_to_from_le_bytes();
        assert(word_bytes(w) == buf@);
    }
    w
}

/// The word whose first `n` bytes are `src[from..from + n]` and whose other
/// bytes are those of `existing`: what a partial store of `n` bytes leaves
/// in the word it lands in.
pub fn merge_partial_word(existing: u64, src: &[u8], from: usize, n: usize) -> (w: u64)
    requires
        n < WORD_SIZE,
        from + n <= src@.len(),
    ensures
        word_bytes(w) == src@.subrange(from as int, from + n) + word_bytes(existing).subrange(
            n as int,
            WORD_SIZE as int,
        ),
{
    proof {
        lemma_word_bytes_roundtrip();
    }
    let mut buf = u64_to_le_bytes(existing);
    let ghost orig = buf@;
    let len = src.len();
    let mut i: usize = 0;
    while i < n
        invariant
            i <= n,
            n < WORD_SIZE,
            from + n <= src@.len(),
            src@.len() == len,
            orig == word_bytes(existing),
            orig.len() == WORD_SIZE,
            buf@.len() == WORD_SIZE,
            buf@ == src@.subrange(from as int, from + i) + orig.subrange(i as int, WORD_SIZE as int),
        decreases n - i,
    {
        buf.set(i, src[from + i]);
        i = i + 1;
        assert(buf@ =~= src@.subrange(from as int, from + i) + orig.subrange(
            i as int,
            WORD_SIZE as int,
        ));
    }
    let w = u64_from_le_bytes(buf.as_slice());
    proof {
        lemma_auto_spec_u64_to_from_le_bytes();
        assert(word_bytes(w) == buf@);
    }
    w
}

/// Appends the first `n` bytes of `word` to `target`.
pub fn append_word_prefix(target: &mut Vec<u8>, word: u64, n: usize)
    requires
        n <= WORD_SIZE,
    ensures
        final(target)@ == old(target)@ + word_bytes(word).subrange(0, n as int),
{
    proof {
        lemma_word_bytes_roundtrip();
    }
    let bytes = u64_to_le_bytes(word);
    let mut i: usize = 0;
    while i < n
        invariant
            i <= n,
            n <= WORD_SIZE,
            bytes@ == word_bytes(word),
            bytes@.len() == WORD_SIZE,
            target@ == old(target)@ + word_bytes(word).subrange(0, i as int),
        decreases n - i,
    {
        target.push(bytes[i]);
        i = i + 1;
        assert(target@ =~= old(target)@ + word_bytes(word).subrange(0, i as int));
    }
}

} // verus!
