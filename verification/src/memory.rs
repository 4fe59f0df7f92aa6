//! Reading and writing the inferior's memory, one ptrace word at a time.
//!
//! The contracts here are stated over the requests each call records on the
//! handle: which addresses are peeked and poked, with which words, and what
//! the call makes of each outcome. What those requests mean for the
//! inferior's memory is the subject of `model`.
use vstd::prelude::*;
use crate::error::{status_of, PsErr};
use crate::handle::{Access, ProcHandle};
use crate::ptrace::PtraceError;
use crate::words::{append_word_prefix, lemma_word_bytes_roundtrip, merge_partial_word, word_bytes, word_from_bytes, word_of, WORD_SIZE};

verus! {

/// Whether the request `a` succeeded.
pub open spec fn access_ok(a: Access) -> bool {
    match a {
        Access::PeekData { result, .. } => result is Ok,
        Access::PokeData { result, .. } => result is Ok,
        Access::GetRegs { result, .. } => result is Ok,
        Access::SetRegs { result, .. } => result is Ok,
    }
}

/// The error that the request `a` failed with (meaningful when it failed).
pub open spec fn access_error(a: Access) -> PtraceError {
    match a {
        Access::PeekData { result: Err(e), .. } => e,
        Access::PokeData { result: Err(e), .. } => e,
        Access::GetRegs { result: Err(e), .. } => e,
        Access::SetRegs { result: Err(e), .. } => e,
        _ => PtraceError::Failed,
    }
}

/// The word that a successful peek returned.
pub open spec fn peeked_word(a: Access) -> u64 {
    match a {
        Access::PeekData { result: Ok(w), .. } => w as u64,
        _ => 0,
    }
}

/// `a` is a peek of process `pid` at address `addr`.
pub open spec fn is_peek_at(a: Access, pid: i32, addr: int) -> bool {
    match a {
        Access::PeekData { pid: p, addr: x, .. } => p == pid && x == addr,
        _ => false,
    }
}

/// `a` is a poke of `word` at address `addr` of process `pid`.
pub open spec fn is_poke_of(a: Access, pid: i32, addr: int, word: u64) -> bool {
    match a {
        Access::PokeData { pid: p, addr: x, word: w, .. } => p == pid && x == addr && w as u64 == word,
        _ => false,
    }
}

/// A sequence of requests ends well when it is empty or its last request succeeded;
/// otherwise it ends with the last request's error.
pub open spec fn outcome_of(t: Seq<Access>) -> Result<(), PtraceError> {
    if t.len() == 0 || access_ok(t.last()) {
        Ok(())
    } else {
        Err(access_error(t.last()))
    }
}

/// The requests recorded on `after` since `before`.
pub open spec fn new_accesses(after: &ProcHandle, before: &ProcHandle) -> Seq<Access> {
    after.accesses().skip(before.accesses().len() as int)
}

/// How many words a read of `size` bytes peeks: one per started word, and
/// one even when `size` is zero.
pub open spec fn read_word_count(size: nat) -> nat {
    if size == 0 {
        1
    } else {
        ((size + 7) / 8) as nat
    }
}

/// The requests of a read of `size` bytes at `addr` in process `pid`:
/// consecutive word peeks from `addr` that stop at the first failure or
/// after `read_word_count(size)` peeks.
pub open spec fn read_trace(pid: i32, addr: int, size: nat, t: Seq<Access>) -> bool {
    &&& 1 <= t.len() <= read_word_count(size)
    &&& forall|i: int| #![trigger t[i]] 0 <= i < t.len() ==> is_peek_at(t[i], pid, addr + 8 * i)
    &&& forall|i: int| #![trigger t[i]] 0 <= i < t.len() - 1 ==> access_ok(t[i])
    &&& t.len() < read_word_count(size) ==> !access_ok(t.last())
}

/// How many of the peeks in `t` succeeded.
pub open spec fn words_read(t: Seq<Access>) -> nat {
    if t.len() > 0 && !access_ok(t.last()) {
        (t.len() - 1) as nat
    } else {
        t.len()
    }
}

/// How many bytes a read of `size` bytes has copied after the peeks in `t`.
pub open spec fn bytes_copied(size: nat, t: Seq<Access>) -> nat {
    if size < 8 * words_read(t) {
        size
    } else {
        8 * words_read(t)
    }
}

/// The bytes a read of `size` bytes has copied after the peeks in `t`: the
/// bytes of the successful peeks, in order, up to `size` of them.
pub open spec fn read_bytes(size: nat, t: Seq<Access>) -> Seq<u8> {
    Seq::new(bytes_copied(size, t), |j: int| word_bytes(peeked_word(t[j / 8]))[j % 8])
}

/// The word made of bytes `8 * i .. 8 * i + 8` of `src`.
pub open spec fn word_at(src: Seq<u8>, i: int) -> u64 {
    word_of(src.subrange(8 * i, 8 * i + 8))
}

/// The bytes of `src` after its last whole word.
pub open spec fn tail_of(src: Seq<u8>) -> Seq<u8> {
    src.subrange(8 * (src.len() / 8) as int, src.len() as int)
}

/// The word stored for a tail: the tail's bytes over the first bytes of
/// the word that was there.
pub open spec fn merged_word(existing: u64, tail: Seq<u8>) -> u64 {
    word_of(tail + word_bytes(existing).subrange(tail.len() as int, 8))
}

/// The requests of storing a tail of fewer than eight bytes at `addr`:
/// none for an empty tail; else a peek of the word there and, if it
/// succeeded, a poke of the merged word.
pub open spec fn tail_trace(pid: i32, addr: int, tail: Seq<u8>, u: Seq<Access>) -> bool {
    if tail.len() == 0 {
        u.len() == 0
    } else {
        &&& 1 <= u.len()
        &&& is_peek_at(u[0], pid, addr)
        &&& if access_ok(u[0]) {
            &&& u.len() == 2
            &&& is_poke_of(u[1], pid, addr, merged_word(peeked_word(u[0]), tail))
        } else {
            u.len() == 1
        }
    }
}

/// The write stopped at a failed poke of a whole word.
pub open spec fn write_failed_early(src: Seq<u8>, t: Seq<Access>) -> bool {
    &&& 1 <= t.len() <= src.len() / 8
    &&& !access_ok(t.last())
}

/// The requests of writing `src` at `addr` in process `pid`: one poke per
/// whole word of `src`, in order, stopping at the first failure; then the
/// requests that store the tail.
pub open spec fn write_trace(pid: i32, addr: int, src: Seq<u8>, t: Seq<Access>) -> bool {
    let m = src.len() / 8;
    let k = if t.len() < m {
        t.len()
    } else {
        m
    };
    &&& forall|i: int|
        #![trigger t[i]]
        0 <= i < k ==> is_poke_of(t[i], pid, addr + 8 * i, word_at(src, i))
    &&& forall|i: int| #![trigger t[i]] 0 <= i < k - 1 ==> access_ok(t[i])
    &&& write_failed_early(src, t) || {
        &&& t.len() >= m
        &&& (m == 0 || access_ok(t[m - 1]))
        &&& tail_trace(pid, addr + 8 * m, tail_of(src), t.skip(m as int))
    }
}

/// A buffer that holds `before` followed, byte for byte, by the bytes the
/// peeks of `t` copied is `before + read_bytes(size, t)`.
proof fn lemma_appended_bytes(before: Seq<u8>, after: Seq<u8>, size: nat, t: Seq<Access>)
    requires
        after.len() == before.len() + bytes_copied(size, t),
        after.subrange(0, before.len() as int) == before,
        forall|j: int|
            #![trigger after[before.len() + j]]
            0 <= j < bytes_copied(size, t) ==> after[before.len() + j] == word_bytes(
                peeked_word(t[j / 8]),
            )[j % 8],
    ensures
        after == before + read_bytes(size, t),
{
    assert forall|j: int| 0 <= j < after.len() implies #[trigger] after[j] == (before + read_bytes(
        size,
        t,
    ))[j] by {
        if j < before.len() {
            assert(after.subrange(0, before.len() as int)[j] == before[j]);
        } else {
            let k = j - before.len();
            assert(after[before.len() + k] == word_bytes(peeked_word(t[k / 8]))[k % 8]);
        }
    }
    assert(after =~= before + read_bytes(size, t));
}

/// Reads `size` bytes from address `source` of the inferior, one ptrace
/// word at a time, appending them to `target`; stops at the first failed
/// peek, with the bytes of the words read so far appended.
pub fn read(handle: &mut ProcHandle, source: usize, target: &mut Vec<u8>, size: usize) -> (r: Result<
    (),
    PtraceError,
>)
    requires
        source + size <= usize::MAX,
    ensures
        final(handle).extends(old(handle), new_accesses(final(handle), old(handle))),
        read_trace(
            old(handle).process(),
            source as int,
            size as nat,
            new_accesses(final(handle), old(handle)),
        ),
        final(target)@ == old(target)@ + read_bytes(size as nat, new_accesses(final(handle), old(handle))),
        r == outcome_of(new_accesses(final(handle), old(handle))),
{
    let ghost t: Seq<Access> = Seq::empty();
    let mut src: usize = source;
    let mut off: usize = 0;
    let mut remaining: usize = size;
    let mut i: usize = 0;
    assert(handle.accesses() =~= old(handle).accesses() + t);
    loop
        invariant
            off == 8 * i,
            src == source + off,
            off + remaining == size,
            i == 0 || remaining > 0,
            source + size <= usize::MAX,
            handle.process() == old(handle).process(),
            handle.symbol_tables() == old(handle).symbol_tables(),
            handle.accesses() == old(handle).accesses() + t,
            t.len() == i,
            forall|k: int|
                #![trigger t[k]]
                0 <= k < i ==> is_peek_at(t[k], old(handle).process(), source + 8 * k) && access_ok(
                    t[k],
                ),
            target@.len() == old(target)@.len() + off,
            target@.subrange(0, old(target)@.len() as int) == old(target)@,
            forall|j: int|
                #![trigger target@[old(target)@.len() + j]]
                0 <= j < off ==> target@[old(target)@.len() + j] == word_bytes(
                    peeked_word(t[j / 8]),
                )[j % 8],
        decreases remaining,
    {
        proof {
            lemma_word_bytes_roundtrip();
        }
        let res = handle.peek(src);
        proof {
            t = t.push(Access::PeekData { pid: old(handle).process(), addr: src, result: res });
            assert(handle.accesses() =~= old(handle).accesses() + t);
            assert((old(handle).accesses() + t).skip(old(handle).accesses().len() as int) =~= t);
        }
        let data = match res {
            Ok(d) => d as u64,
            Err(e) => {
                proof {
                    assert(bytes_copied(size as nat, t) == off);
                    lemma_appended_bytes(old(target)@, target@, size as nat, t);
                }
                return Err(e);
            },
        };
        if remaining > WORD_SIZE {
            append_word_prefix(target, data, WORD_SIZE);
            off = off + WORD_SIZE;
            src = src + WORD_SIZE;
            remaining = remaining - WORD_SIZE;
            i = i + 1;
        } else {
            let ghost before_tail = target@;
            append_word_prefix(target, data, remaining);
            proof {
                assert forall|k: int| off <= k < size implies #[trigger] target@[old(target)@.len() + k]
                    == word_bytes(peeked_word(t[k / 8]))[k % 8] by {
                    assert(k / 8 == i);
                    assert(k % 8 == k - off);
                    assert(target@[old(target)@.len() + k] == word_bytes(data).subrange(0, remaining as int)[k - off]);
                }
                assert forall|k: int| 0 <= k < off implies #[trigger] target@[old(target)@.len() + k]
                    == word_bytes(peeked_word(t[k / 8]))[k % 8] by {
                    assert(target@[old(target)@.len() + k] == before_tail[old(target)@.len() + k]);
                    assert(t[k / 8] == t.drop_last()[k / 8]);
                }
                assert(target@.subrange(0, old(target)@.len() as int) =~= old(target)@);
                assert(bytes_copied(size as nat, t) == size);
                lemma_appended_bytes(old(target)@, target@, size as nat, t);
            }
            return Ok(());
        }
    }
}

/// Copies `size` bytes from `source` to address `target` of the inferior:
/// whole words are poked in place; a last partial word is read, merged
/// with the remaining bytes, and poked back, so the bytes after the range
/// keep their values. Stops at the first failed request.
pub fn write(handle: &mut ProcHandle, target: usize, source: &[u8], size: usize) -> (r: Result<
    (),
    PtraceError,
>)
    requires
        size <= source@.len(),
        target + size <= usize::MAX,
    ensures
        final(handle).extends(old(handle), new_accesses(final(handle), old(handle))),
        write_trace(
            old(handle).process(),
            target as int,
            source@.subrange(0, size as int),
            new_accesses(final(handle), old(handle)),
        ),
        r == outcome_of(new_accesses(final(handle), old(handle))),
{
    let ghost t: Seq<Access> = Seq::empty();
    let ghost n0 = old(handle).accesses().len() as int;
    let ghost src = source@.subrange(0, size as int);
    let mut tgt: usize = target;
    let mut off: usize = 0;
    let mut remaining: usize = size;
    assert(handle.accesses() =~= old(handle).accesses() + t);
    while remaining >= WORD_SIZE
        invariant
            off % 8 == 0,
            tgt == target + off,
            off + remaining == size,
            target + size <= usize::MAX,
            size <= source@.len(),
            src == source@.subrange(0, size as int),
            n0 == old(handle).accesses().len(),
            handle.process() == old(handle).process(),
            handle.symbol_tables() == old(handle).symbol_tables(),
            handle.accesses() == old(handle).accesses() + t,
            t.len() == off / 8,
            forall|k: int|
                #![trigger t[k]]
                0 <= k < off / 8 ==> is_poke_of(
                    t[k],
                    old(handle).process(),
                    target + 8 * k,
                    word_at(src, k),
                ) && access_ok(t[k]),
        decreases remaining,
    {
        let word = word_from_bytes(source, off);
        assert(source@.subrange(off as int, off + 8) =~= src.subrange(
            8 * (off / 8),
            8 * (off / 8) + 8,
        ));
        proof {
            lemma_word_bytes_roundtrip();
            assert(word_at(src, (off / 8) as int) == word);
            assert((off + 8) / 8 == off / 8 + 1);
        }
        assert((word as i64) as u64 == word) by (bit_vector);
        let res = handle.poke(tgt, word as i64);
        proof {
            t = t.push(Access::PokeData { pid: old(handle).process(), addr: tgt, word: word as i64, result: res });
            assert(handle.accesses() =~= old(handle).accesses() + t);
            assert((old(handle).accesses() + t).skip(n0) =~= t);
        }
        match res {
            Ok(()) => {},
            Err(e) => {
                return Err(e);
            },
        }
        tgt = tgt + WORD_SIZE;
        off = off + WORD_SIZE;
        remaining = remaining - WORD_SIZE;
    }
    let ghost m = off / 8;
    assert(m == src.len() / 8);
    assert(tail_of(src) =~= source@.subrange(off as int, size as int));
    if remaining > 0 {
        let res = handle.peek(tgt);
        proof {
            t = t.push(Access::PeekData { pid: old(handle).process(), addr: tgt, result: res });
            assert(handle.accesses() =~= old(handle).accesses() + t);
            assert((old(handle).accesses() + t).skip(n0) =~= t);
        }
        let data = match res {
            Ok(d) => d as u64,
            Err(e) => {
                assert(t.skip(m as int) =~= seq![t.last()]);
                return Err(e);
            },
        };
        let merged = merge_partial_word(data, source, off, remaining);
        proof {
            lemma_word_bytes_roundtrip();
        }
        let ghost t1 = t;
        assert((merged as i64) as u64 == merged) by (bit_vector);
        let res2 = handle.poke(tgt, merged as i64);
        proof {
            t = t.push(Access::PokeData { pid: old(handle).process(), addr: tgt, word: merged as i64, result: res2 });
            assert(handle.accesses() =~= old(handle).accesses() + t);
            assert((old(handle).accesses() + t).skip(n0) =~= t);
            assert(t.skip(m as int) =~= seq![t1.last(), t.last()]);
            assert(t.last() == Access::PokeData { pid: old(handle).process(), addr: tgt, word: merged as i64, result: res2 });
        }
        return match res2 {
            Ok(()) => Ok(()),
            Err(e) => Err(e),
        };
    }
    assert(t.skip(m as int).len() == 0);
    assert((old(handle).accesses() + t).skip(n0) =~= t);
    Ok(())
}

/// A successful read returns the inferior's words as PTRACE_PEEKDATA gave
/// them: the bytes it copies for the word at `addr + 8 * k` are the
/// little-endian bytes of the `c_long` that the peek of that address
/// returned, all eight of them (decoding back to that value) for a word
/// the range covers whole, and its leading bytes for a last partial word.
pub proof fn lemma_read_returns_peeked_words(pid: i32, addr: int, size: nat, t: Seq<Access>, k: int)
    requires
        read_trace(pid, addr, size, t),
        outcome_of(t) is Ok,
        0 <= k,
        8 * k < size,
    ensures
        match t[k] {
            Access::PeekData { pid: p, addr: a, result: Ok(w) } => {
                let end = if 8 * k + 8 <= size {
                    8 * k + 8
                } else {
                    size as int
                };
                &&& p == pid
                &&& a == addr + 8 * k
                &&& read_bytes(size, t).subrange(8 * k, end) == word_bytes(w as u64).subrange(
                    0,
                    end - 8 * k,
                )
                &&& 8 * k + 8 <= size ==> word_of(read_bytes(size, t).subrange(8 * k, 8 * k + 8))
                    == w as u64
            },
            _ => false,
        },
{
    lemma_word_bytes_roundtrip();
    let n = t.len();
    assert(access_ok(t.last()));
    assert(words_read(t) == n);
    assert(n == read_word_count(size));
    assert(bytes_copied(size, t) == size);
    assert(k < n);
    assert(is_peek_at(t[k], pid, addr + 8 * k));
    if k < n - 1 {
        assert(access_ok(t[k]));
    } else {
        assert(t[k] == t.last());
    }
    let end = if 8 * k + 8 <= size {
        8 * k + 8
    } else {
        size as int
    };
    let got = read_bytes(size, t).subrange(8 * k, end);
    let w = peeked_word(t[k]);
    assert forall|j: int| 0 <= j < end - 8 * k implies #[trigger] got[j] == word_bytes(w).subrange(
        0,
        end - 8 * k,
    )[j] by {
        assert((8 * k + j) / 8 == k);
        assert((8 * k + j) % 8 == j);
    }
    assert(got =~= word_bytes(w).subrange(0, end - 8 * k));
    if 8 * k + 8 <= size {
        assert(word_bytes(w).subrange(0, 8) =~= word_bytes(w));
    }
}

/// A successful write pokes the source as the inferior's words: the word
/// poked at `addr + 8 * k` for each whole word of `src` is the `c_long`
/// whose little-endian bytes are `src[8 * k .. 8 * k + 8]`.
pub proof fn lemma_write_pokes_source_words(pid: i32, addr: int, src: Seq<u8>, t: Seq<Access>, k: int)
    requires
        write_trace(pid, addr, src, t),
        outcome_of(t) is Ok,
        0 <= k < src.len() / 8,
    ensures
        match t[k] {
            Access::PokeData { pid: p, addr: a, word: w, result: Ok(_) } => {
                &&& p == pid
                &&& a == addr + 8 * k
                &&& word_bytes(w as u64) == src.subrange(8 * k, 8 * k + 8)
            },
            _ => false,
        },
{
    lemma_word_bytes_roundtrip();
    let m = src.len() / 8;
    assert(!write_failed_early(src, t));
    assert(t.len() >= m);
    assert(is_poke_of(t[k], pid, addr + 8 * k, word_at(src, k)));
    if k < m - 1 {
        assert(access_ok(t[k]));
    } else {
        assert(access_ok(t[m - 1]));
    }
    assert(src.subrange(8 * k, 8 * k + 8).len() == 8);
}

/// A successful write of a source that ends in a partial word of `r`
/// bytes stores that word by one peek and one poke at the same address
/// (the whole words before it): the poked word's little-endian bytes are
/// the `r` tail bytes of `src` followed by the bytes after them in the word
/// that the peek returned.
pub proof fn lemma_write_merges_tail(pid: i32, addr: int, src: Seq<u8>, t: Seq<Access>)
    requires
        write_trace(pid, addr, src, t),
        outcome_of(t) is Ok,
        src.len() % 8 != 0,
    ensures
        t.len() == src.len() / 8 + 2,
        match (t[(src.len() / 8) as int], t[(src.len() / 8) as int + 1]) {
            (
                Access::PeekData { pid: p1, addr: a1, result: Ok(e) },
                Access::PokeData { pid: p2, addr: a2, word: w, result: Ok(_) },
            ) => {
                &&& p1 == pid && p2 == pid
                &&& a1 == addr + 8 * (src.len() / 8) && a2 == a1
                &&& word_bytes(w as u64) == src.subrange(8 * (src.len() / 8) as int, src.len() as int)
                    + word_bytes(e as u64).subrange((src.len() % 8) as int, 8)
            },
            _ => false,
        },
{
    lemma_word_bytes_roundtrip();
    let m = (src.len() / 8) as int;
    let tail = tail_of(src);
    assert(!write_failed_early(src, t));
    let u = t.skip(m);
    assert(tail.len() == src.len() % 8);
    assert(is_peek_at(u[0], pid, addr + 8 * m));
    if !access_ok(u[0]) {
        assert(u.len() == 1);
        assert(t.last() == u[0]);
    }
    assert(u.len() == 2);
    assert(t.len() == m + 2);
    assert(t[m] == u[0]);
    assert(t[m + 1] == u[1]);
    assert(t.last() == u[1]);
    let e = peeked_word(u[0]);
    let merged = merged_word(e, tail);
    assert(is_poke_of(u[1], pid, addr + 8 * m, merged));
    assert((tail + word_bytes(e).subrange(tail.len() as int, 8)).len() == 8);
}

/// `ps_pdread`: reads `size` bytes at address `ps_addr` of the inferior,
/// appending to `addr` the bytes it could read (all `size` of them when it
/// succeeds).
pub fn ps_pdread(handle: &mut ProcHandle, ps_addr: usize, addr: &mut Vec<u8>, size: usize) -> (r: PsErr)
    requires
        ps_addr + size <= usize::MAX,
    ensures
        final(handle).extends(old(handle), new_accesses(final(handle), old(handle))),
        read_trace(
            old(handle).process(),
            ps_addr as int,
            size as nat,
            new_accesses(final(handle), old(handle)),
        ),
        final(addr)@ == old(addr)@ + read_bytes(size as nat, new_accesses(final(handle), old(handle))),
        r == status_of(outcome_of(new_accesses(final(handle), old(handle)))),
{
    PsErr::from(read(handle, ps_addr, addr, size))
}

/// `ps_pdwrite`: writes `size` bytes from `addr` to address `ps_addr` of
/// the inferior.
pub fn ps_pdwrite(handle: &mut ProcHandle, ps_addr: usize, addr: &[u8], size: usize) -> (r: PsErr)
    requires
        size <= addr@.len(),
        ps_addr + size <= usize::MAX,
    ensures
        final(handle).extends(old(handle), new_accesses(final(handle), old(handle))),
        write_trace(
            old(handle).process(),
            ps_addr as int,
            addr@.subrange(0, size as int),
            new_accesses(final(handle), old(handle)),
        ),
        r == status_of(outcome_of(new_accesses(final(handle), old(handle)))),
{
    PsErr::from(write(handle, ps_addr, addr, size))
}

} // verus!
